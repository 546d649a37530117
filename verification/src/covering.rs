//! What a search keeps true of its frontier and of the positions that are
//! done, from one expansion to the next.
use std::rc::Rc;
use vstd::prelude::*;
use crate::node::Node;
use crate::frontier::{lemma_load_push, lemma_load_remove, load};
use crate::progress::{
    lemma_sparse_bounded, lemma_weight_outweighs, lemma_weight_positive, spare, weight,
};
use crate::terrain::{clamp, target_matches, Position, Target, Terrain};

verus! {

/// The positions that have been expanded.
pub(crate) open spec fn closed_positions(closed: Seq<Rc<Node>>) -> Set<Position> {
    Set::new(
        |position: Position|
            exists|i: int| 0 <= i < closed.len() && (#[trigger] closed[i]).position == position,
    )
}

/// Expanding one more node puts its position among those that are done.
pub(crate) proof fn lemma_closed_push(closed: Seq<Rc<Node>>, node: Rc<Node>)
    ensures
        closed_positions(closed.push(node)) == closed_positions(closed).insert(node.position),
{
    let longer = closed.push(node);
    assert forall|position: Position|
        closed_positions(longer).contains(position) <==> closed_positions(closed).insert(
            node.position,
        ).contains(position) by {
        if closed_positions(longer).contains(position) {
            let i = choose|i: int| 0 <= i < longer.len() && (#[trigger] longer[i]).position == position;
            if i < closed.len() {
                assert(closed[i].position == position);
            }
        }
        if closed_positions(closed).contains(position) {
            let i = choose|i: int| 0 <= i < closed.len() && (#[trigger] closed[i]).position == position;
            assert(longer[i].position == position);
        }
        if position == node.position {
            assert(longer[closed.len() as int].position == position);
        }
    }
    assert(closed_positions(longer) =~= closed_positions(closed).insert(node.position));
}

/// Whether every node of the frontier has a sparse chain from `start` whose
/// positions, but for the node's own, are among `done`.
pub(crate) open spec fn tidy(frontier: Seq<Node>, start: Position, done: Set<Position>) -> bool {
    forall|k: int| 0 <= k < frontier.len() ==> (#[trigger] frontier[k]).settled(start, done)
}

/// Whether the frontier has a node at `position`.
pub(crate) open spec fn waiting(frontier: Seq<Node>, position: Position) -> bool {
    exists|k: int| 0 <= k < frontier.len() && (#[trigger] frontier[k]).position == position
}

/// Whether the frontier has a node at `position` of exactly that cost.
pub(crate) open spec fn made(frontier: Seq<Node>, position: Position, cost: usize) -> bool {
    exists|k: int|
        0 <= k < frontier.len() && (#[trigger] frontier[k]).position == position
            && frontier[k].cost == cost
}

/// Whether `frontier` is `rest` with nodes added behind it that each have a
/// predecessor.
pub(crate) open spec fn grows_from(frontier: Seq<Node>, rest: Seq<Node>) -> bool {
    &&& rest.len() <= frontier.len()
    &&& forall|k: int| 0 <= k < rest.len() ==> #[trigger] frontier[k] == rest[k]
    &&& forall|k: int| rest.len() <= k < frontier.len() ==> (#[trigger] frontier[k]).route().len() >= 2
}

/// What every node that an expansion of `top` adds weighs.
pub(crate) open spec fn step_weight(top: Node) -> nat {
    if spare(top.route().len()) >= 1 {
        weight((spare(top.route().len()) - 1) as nat)
    } else {
        0
    }
}

/// A node made from `top` at a position that is not yet done keeps the
/// frontier tidy and weighs what a step from `top` weighs.
proof fn lemma_child_settled(
    top: Node,
    child: Node,
    start: Position,
    done: Set<Position>,
)
    requires
        top.settled(start, done),
        child.route() == seq![child.position] + top.route(),
        !done.contains(child.position),
    ensures
        child.settled(start, done.insert(top.position)),
        child.weight() == step_weight(top),
        child.route().len() >= 2,
{
    top.lemma_route_head();
    let route = child.route();
    let behind = top.route();
    assert forall|j: int| 1 <= j < route.len() implies done.insert(top.position).contains(
        #[trigger] route[j],
    ) by {
        assert(route[j] == behind[j - 1]);
    }
    assert forall|i: int, j: int| 0 <= i && i + 2 <= j && j < route.len() implies route[i]
        != route[j] by {
        assert(route[j] == behind[j - 1]);
        if i == 0 {
            assert(done.contains(behind[j - 1]));
        } else {
            assert(route[i] == behind[i - 1]);
        }
    }
    assert(route.last() == behind.last());
    lemma_sparse_bounded(route);
}

/// The frontier after `top` has been expanded weighs less than before `top`
/// was taken from it.
proof fn lemma_expansion_lightens(top: Node, offered: nat, before: nat, after: nat)
    requires
        offered <= usize::MAX,
        after <= before + offered * step_weight(top),
    ensures
        after < before + top.weight(),
{
    let left = spare(top.route().len());
    if left >= 1 {
        lemma_weight_outweighs(left, offered);
    } else {
        lemma_weight_positive(left);
        assert(offered * step_weight(top) == 0) by (nonlinear_arith)
            requires
                step_weight(top) == 0,
        ;
    }
}

/// One more node of the step weight keeps the frontier's load within what
/// the nodes offered so far allow.
proof fn lemma_load_grows(frontier: Seq<Node>, child: Node, top: Node, base: nat, offered: nat)
    requires
        load(frontier) <= base + offered * step_weight(top),
        child.weight() == step_weight(top),
    ensures
        load(frontier.push(child)) <= base + (offered + 1) * step_weight(top),
{
    lemma_load_push(frontier, child);
    let w = step_weight(top) as int;
    let n = offered as int;
    assert((n + 1) * w == n * w + w) by (nonlinear_arith);
}

/// Without a new node the frontier's load stays within what one more
/// neighbour allows.
proof fn lemma_load_waits(frontier: Seq<Node>, top: Node, base: nat, offered: nat)
    requires
        load(frontier) <= base + offered * step_weight(top),
    ensures
        load(frontier) <= base + (offered + 1) * step_weight(top),
{
    let w = step_weight(top) as int;
    let n = offered as int;
    assert((n + 1) * w == n * w + w) by (nonlinear_arith);
}

/// What holds of the frontier while `top` is expanded, whatever the
/// terrain: it is `rest` with the nodes made so far behind it, it is tidy
/// once the position of `top` is done, and it weighs no more than `rest` and
/// one step weight for each of the `count` neighbours gone through.
pub(crate) open spec fn widened(
    top: Node,
    start: Position,
    done: Set<Position>,
    rest: Seq<Node>,
    count: int,
    frontier: Seq<Node>,
) -> bool {
    &&& top.settled(start, done)
    &&& tidy(frontier, start, done.insert(top.position))
    &&& grows_from(frontier, rest)
    &&& load(frontier) <= load(rest) + count * step_weight(top)
}

/// Taking a node from a tidy frontier leaves a frontier that can be widened.
pub(crate) proof fn lemma_widen_start(
    before: Seq<Node>,
    index: int,
    start: Position,
    done: Set<Position>,
)
    requires
        tidy(before, start, done),
        0 <= index < before.len(),
    ensures
        widened(before[index], start, done, before.remove(index), 0, before.remove(index)),
{
    lemma_tidy_rest(before, index, start, done, done.insert(before[index].position));
    assert(0 * step_weight(before[index]) == 0) by (nonlinear_arith);
}

/// Passing over a neighbour leaves the frontier as wide as it was.
pub(crate) proof fn lemma_widen_pass(
    top: Node,
    start: Position,
    done: Set<Position>,
    rest: Seq<Node>,
    count: int,
    frontier: Seq<Node>,
)
    requires
        widened(top, start, done, rest, count, frontier),
        count >= 0,
    ensures
        widened(top, start, done, rest, count + 1, frontier),
{
    lemma_load_waits(frontier, top, load(rest), count as nat);
}

/// A node made from `top` at a position that is not done widens the frontier.
pub(crate) proof fn lemma_widen_add(
    top: Node,
    start: Position,
    done: Set<Position>,
    rest: Seq<Node>,
    count: int,
    frontier: Seq<Node>,
    child: Node,
)
    requires
        widened(top, start, done, rest, count, frontier),
        count >= 0,
        child.route() == seq![child.position] + top.route(),
        !done.contains(child.position),
    ensures
        widened(top, start, done, rest, count + 1, frontier.push(child)),
{
    lemma_child_settled(top, child, start, done);
    lemma_tidy_push(frontier, child, start, done.insert(top.position));
    lemma_load_grows(frontier, child, top, load(rest), count as nat);
    lemma_grows_push(frontier, rest, child);
}

/// After an expansion the frontier weighs less than before the node was
/// taken from it.
pub(crate) proof fn lemma_widen_finish(
    before: Seq<Node>,
    index: int,
    start: Position,
    done: Set<Position>,
    offered: nat,
    frontier: Seq<Node>,
)
    requires
        0 <= index < before.len(),
        offered <= usize::MAX,
        widened(before[index], start, done, before.remove(index), offered as int, frontier),
    ensures
        load(frontier) < load(before),
{
    lemma_load_remove(before, index);
    lemma_expansion_lightens(before[index], offered, load(before.remove(index)), load(frontier));
}

/// Whether the state of a search fits `terrain`: the frontier `frontier`
/// and the expanded positions `done`, between two expansions.
pub(crate) open spec fn sound(
    terrain: Terrain,
    start: Position,
    target: Target,
    frontier: Seq<Node>,
    done: Set<Position>,
) -> bool {
    &&& forall|k: int|
        0 <= k < frontier.len() ==> (#[trigger] frontier[k]).fits(terrain, start, target)
    &&& forall|p: Position| #[trigger] done.contains(p) ==> p == start || !target_matches(target, p)
    &&& forall|p: Position, q: Position|
        done.contains(p) && #[trigger] terrain.joins(p, q) && target_matches(target, q) ==> q
            == start && p != start
    &&& forall|p: Position, q: Position|
        done.contains(p) && #[trigger] terrain.joins(p, q) ==> done.contains(q) || waiting(
            frontier,
            q,
        )
    &&& if done.contains(start) {
        forall|k: int| 0 <= k < frontier.len() ==> (#[trigger] frontier[k]).route().len() >= 2
    } else {
        &&& forall|p: Position| !done.contains(p)
        &&& frontier.len() == 1
        &&& frontier[0].route() == seq![start]
    }
}

/// Whether the neighbour at place `j` of those offered has been dealt with:
/// it was done already, or it misses the target and has its node.
pub(crate) open spec fn handled(
    terrain: Terrain,
    target: Target,
    top: Node,
    offered: Seq<Position>,
    j: int,
    done: Set<Position>,
    frontier: Seq<Node>,
) -> bool {
    done.contains(offered[j]) || (!target_matches(target, offered[j]) && made(
        frontier,
        offered[j],
        clamp(top.cost + (terrain.step_cost)(top.position, offered[j])),
    ))
}

/// Whether the first `count` neighbours of `top` have been dealt with and
/// every node of the frontier fits the terrain.
pub(crate) open spec fn grown(
    terrain: Terrain,
    start: Position,
    target: Target,
    top: Node,
    offered: Seq<Position>,
    count: int,
    done: Set<Position>,
    frontier: Seq<Node>,
) -> bool {
    &&& forall|k: int|
        0 <= k < frontier.len() ==> (#[trigger] frontier[k]).fits(terrain, start, target)
    &&& forall|j: int|
        0 <= j < count ==> #[trigger] handled(terrain, target, top, offered, j, done, frontier)
}

/// The first state of a search fits every terrain that gives the estimate
/// held by its one node.
pub(crate) proof fn lemma_first_sound(terrain: Terrain, start: Position, target: Target, first: Node)
    requires
        first.route() == seq![start],
        first.position == start,
        first.cost == 0,
        first.total_cost == (terrain.heuristic)(start, target),
    ensures
        sound(terrain, start, target, seq![first], Set::empty()),
        tidy(seq![first], start, Set::empty()),
{
    let frontier = seq![first];
    assert(terrain.is_route(first.route()));
    assert(terrain.route_cost(first.route()) == 0);
    assert(first.fits(terrain, start, target));
    assert(first.settled(start, Set::empty()));
}

/// A frontier with a node taken out is as tidy as it was, and stays so when
/// more positions are done.
proof fn lemma_tidy_rest(
    before: Seq<Node>,
    index: int,
    start: Position,
    done: Set<Position>,
    more: Set<Position>,
)
    requires
        tidy(before, start, done),
        0 <= index < before.len(),
        done.subset_of(more),
    ensures
        tidy(before.remove(index), start, more),
{
    let rest = before.remove(index);
    assert forall|k: int| 0 <= k < rest.len() implies (#[trigger] rest[k]).settled(
        start,
        more,
    ) by {
        let old_k = if k < index { k } else { k + 1 };
        assert(rest[k] == before[old_k]);
        assert(before[old_k].settled(start, done));
    }
}

/// A tidy frontier stays tidy with a settled node behind it.
proof fn lemma_tidy_push(
    frontier: Seq<Node>,
    child: Node,
    start: Position,
    done: Set<Position>,
)
    requires
        tidy(frontier, start, done),
        child.settled(start, done),
    ensures
        tidy(frontier.push(child), start, done),
{
    let longer = frontier.push(child);
    assert forall|k: int| 0 <= k < longer.len() implies (#[trigger] longer[k]).settled(
        start,
        done,
    ) by {
        if k < frontier.len() {
            assert(longer[k] == frontier[k]);
        }
    }
}

/// The frontier with `top` taken out has dealt with none of the neighbours
/// yet, and each of its nodes fits.
pub(crate) proof fn lemma_grown_start(
    terrain: Terrain,
    start: Position,
    target: Target,
    before: Seq<Node>,
    index: int,
    offered: Seq<Position>,
    done: Set<Position>,
)
    requires
        sound(terrain, start, target, before, done),
        0 <= index < before.len(),
    ensures
        grown(terrain, start, target, before[index], offered, 0, done, before.remove(index)),
        before[index].fits(terrain, start, target),
        grows_from(before.remove(index), before.remove(index)),
{
    let rest = before.remove(index);
    assert forall|k: int| 0 <= k < rest.len() implies (#[trigger] rest[k]).fits(
        terrain,
        start,
        target,
    ) by {
        let old_k = if k < index { k } else { k + 1 };
        assert(rest[k] == before[old_k]);
    }
}

/// A neighbour that was done already is dealt with.
pub(crate) proof fn lemma_grown_skip(
    terrain: Terrain,
    start: Position,
    target: Target,
    top: Node,
    offered: Seq<Position>,
    count: int,
    done: Set<Position>,
    frontier: Seq<Node>,
)
    requires
        grown(terrain, start, target, top, offered, count, done, frontier),
        0 <= count < offered.len(),
        done.contains(offered[count]),
    ensures
        grown(terrain, start, target, top, offered, count + 1, done, frontier),
{
    assert forall|j: int| 0 <= j < count + 1 implies #[trigger] handled(
        terrain,
        target,
        top,
        offered,
        j,
        done,
        frontier,
    ) by {
        if j < count {
            assert(handled(terrain, target, top, offered, j, done, frontier));
        }
    }
}

/// A node made for a neighbour that misses the target fits the terrain, and
/// with it in the frontier the neighbour is dealt with.
pub(crate) proof fn lemma_grown_push(
    terrain: Terrain,
    start: Position,
    target: Target,
    top: Node,
    offered: Seq<Position>,
    count: int,
    done: Set<Position>,
    frontier: Seq<Node>,
    child: Node,
)
    requires
        grown(terrain, start, target, top, offered, count, done, frontier),
        top.fits(terrain, start, target),
        0 <= count < offered.len(),
        offered == (terrain.neighbors)(top.position),
        child.position == offered[count],
        !target_matches(target, child.position),
        child.route() == seq![child.position] + top.route(),
        child.cost == clamp(top.cost + (terrain.step_cost)(top.position, child.position)),
        child.total_cost == clamp(
            clamp(top.cost + (terrain.step_cost)(top.position, child.position)) + (
            terrain.heuristic)(child.position, target),
        ),
    ensures
        grown(terrain, start, target, top, offered, count + 1, done, frontier.push(child)),
        child.fits(terrain, start, target),
{
    top.lemma_route_head();
    let behind = top.route();
    let route = child.route();
    let longer = frontier.push(child);
    assert(terrain.joins(behind[0], child.position));
    terrain.lemma_extend(behind, child.position);
    terrain.lemma_cost_not_negative(behind);
    assert(route.last() == behind.last());
    assert forall|i: int| 0 <= i < route.len() - 1 implies !target_matches(
        target,
        #[trigger] route[i],
    ) by {
        if i > 0 {
            assert(route[i] == behind[i - 1]);
        }
    }
    assert(child.fits(terrain, start, target));
    assert forall|k: int| 0 <= k < longer.len() implies (#[trigger] longer[k]).fits(
        terrain,
        start,
        target,
    ) by {
        if k < frontier.len() {
            assert(longer[k] == frontier[k]);
        }
    }
    assert forall|j: int| 0 <= j < count + 1 implies #[trigger] handled(
        terrain,
        target,
        top,
        offered,
        j,
        done,
        longer,
    ) by {
        if j < count {
            assert(handled(terrain, target, top, offered, j, done, frontier));
            if !done.contains(offered[j]) {
                let cost = clamp(top.cost + (terrain.step_cost)(top.position, offered[j]));
                let k = choose|k: int|
                    0 <= k < frontier.len() && (#[trigger] frontier[k]).position == offered[j]
                        && frontier[k].cost == cost;
                assert(longer[k] == frontier[k]);
            }
        } else {
            assert(longer[frontier.len() as int] == child);
        }
    }
}

/// One more node with a predecessor behind the frontier keeps it grown
/// from `rest`.
proof fn lemma_grows_push(frontier: Seq<Node>, rest: Seq<Node>, child: Node)
    requires
        grows_from(frontier, rest),
        child.route().len() >= 2,
    ensures
        grows_from(frontier.push(child), rest),
{
    let longer = frontier.push(child);
    assert forall|k: int| 0 <= k < rest.len() implies #[trigger] longer[k] == rest[k] by {
        assert(longer[k] == frontier[k]);
    }
    assert forall|k: int| rest.len() <= k < longer.len() implies (#[trigger] longer[k]).route().len()
        >= 2 by {
        if k < frontier.len() {
            assert(longer[k] == frontier[k]);
        }
    }
}

/// Once all neighbours of the node taken from the frontier are dealt with,
/// the state with that node's position done fits the terrain again.
pub(crate) proof fn lemma_close(
    terrain: Terrain,
    start: Position,
    target: Target,
    before: Seq<Node>,
    index: int,
    offered: Seq<Position>,
    done: Set<Position>,
    frontier: Seq<Node>,
)
    requires
        sound(terrain, start, target, before, done),
        0 <= index < before.len(),
        offered == (terrain.neighbors)(before[index].position),
        grown(terrain, start, target, before[index], offered, offered.len() as int, done, frontier),
        grows_from(frontier, before.remove(index)),
    ensures
        sound(terrain, start, target, frontier, done.insert(before[index].position)),
{
    let top = before[index];
    let here = top.position;
    let rest = before.remove(index);
    let after = done.insert(here);
    top.lemma_route_head();
    assert(top.fits(terrain, start, target));
    assert(here == start || !target_matches(target, here)) by {
        if top.route().len() >= 2 {
            assert(!target_matches(target, top.route()[0]));
        }
    }
    assert forall|p: Position, q: Position|
        after.contains(p) && #[trigger] terrain.joins(p, q) && target_matches(
            target,
            q,
        ) implies q == start && p != start by {
        if !done.contains(p) {
            let j = choose|j: int| 0 <= j < offered.len() && offered[j] == q;
            assert(handled(terrain, target, top, offered, j, done, frontier));
            assert(done.contains(q));
            if here == start {
                assert(top.route().len() >= 2);
                assert(!target_matches(target, top.route()[0]));
            }
        }
    }
    assert forall|p: Position, q: Position|
        after.contains(p) && #[trigger] terrain.joins(p, q) implies after.contains(q) || waiting(
            frontier,
            q,
        ) by {
        if done.contains(p) {
            if !done.contains(q) && q != here {
                let k = choose|k: int| 0 <= k < before.len() && (#[trigger] before[k]).position == q;
                let new_k = if k < index { k } else { k - 1 };
                assert(rest[new_k] == before[k]);
                assert(frontier[new_k] == rest[new_k]);
            }
        } else {
            let j = choose|j: int| 0 <= j < offered.len() && offered[j] == q;
            assert(handled(terrain, target, top, offered, j, done, frontier));
            if !done.contains(q) {
                let cost = clamp(top.cost + (terrain.step_cost)(here, q));
                let k = choose|k: int|
                    0 <= k < frontier.len() && (#[trigger] frontier[k]).position == q
                        && frontier[k].cost == cost;
                assert(frontier[k].position == q);
            }
        }
    }
    assert(after.contains(start));
    assert forall|k: int| 0 <= k < frontier.len() implies (#[trigger] frontier[k]).route().len()
        >= 2 by {
        if k < rest.len() {
            let old_k = if k < index { k } else { k + 1 };
            assert(frontier[k] == rest[k]);
            assert(rest[k] == before[old_k]);
            assert(before[old_k].route().len() >= 2);
        }
    }
}

/// A neighbour that meets the target and was not done closes a route that
/// connects the start with the target.
pub(crate) proof fn lemma_found(
    terrain: Terrain,
    start: Position,
    target: Target,
    before: Seq<Node>,
    index: int,
    done: Set<Position>,
    arrival: Position,
)
    requires
        sound(terrain, start, target, before, done),
        0 <= index < before.len(),
        terrain.joins(before[index].position, arrival),
        target_matches(target, arrival),
        !done.contains(arrival),
    ensures
        terrain.connects(start, target, seq![arrival] + before[index].route()),
{
    let top = before[index];
    top.lemma_route_head();
    assert(top.fits(terrain, start, target));
    terrain.lemma_extend(top.route(), arrival);
    let route = seq![arrival] + top.route();
    assert(route.last() == top.route().last());
}

/// When the frontier is empty, no route connects the start with the target.
pub(crate) proof fn lemma_exhausted(
    terrain: Terrain,
    start: Position,
    target: Target,
    done: Set<Position>,
    route: Seq<Position>,
)
    requires
        sound(terrain, start, target, Seq::empty(), done),
    ensures
        !terrain.connects(start, target, route),
{
    if terrain.connects(start, target, route) {
        lemma_all_done(terrain, start, target, done, route, 0);
        lemma_all_done(terrain, start, target, done, route, 1);
        assert(terrain.steps(route, 0));
    }
}

/// With an empty frontier every position of a route from `start` is done.
proof fn lemma_all_done(
    terrain: Terrain,
    start: Position,
    target: Target,
    done: Set<Position>,
    route: Seq<Position>,
    place: int,
)
    requires
        sound(terrain, start, target, Seq::empty(), done),
        terrain.is_route(route),
        route.last() == start,
        0 <= place < route.len(),
    ensures
        done.contains(route[place]),
    decreases route.len() - place,
{
    if place < route.len() - 1 {
        lemma_all_done(terrain, start, target, done, route, place + 1);
        assert(terrain.steps(route, place));
        assert(!waiting(Seq::<Node>::empty(), route[place]));
    }
}

} // verus!
