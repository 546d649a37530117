//! The frontier: which node is taken next, how the frontier is seen by
//! the stated search, and what its nodes weigh together.
use vstd::prelude::*;
use crate::model::{first_best, lemma_first_best, Progress, Waiting};
use crate::node::Node;
use crate::terrain::{target_matches, Position, Target, Terrain};

verus! {

/// Whether the node at `index` is the one to expand next: none in the
/// frontier has a smaller total cost, and all before it have a larger one.
pub(crate) open spec fn is_best(frontier: Seq<Node>, index: int) -> bool {
    &&& 0 <= index < frontier.len()
    &&& forall|j: int|
        0 <= j < frontier.len() ==> frontier[index].total_cost <= (#[trigger] frontier[j]).total_cost
    &&& forall|j: int| 0 <= j < index ==> frontier[index].total_cost < (#[trigger] frontier[j]).total_cost
}

/// The place of the node to expand next: the first of those with the
/// smallest total cost, which is the one that has waited longest.
pub(crate) fn best_index(que: &Vec<Node>) -> (index: usize)
    requires
        que@.len() > 0,
    ensures
        is_best(que@, index as int),
{
    let mut best: usize = 0;
    let mut j: usize = 1;
    while j < que.len()
        invariant
            1 <= j <= que@.len(),
            best < j,
            forall|k: int| 0 <= k < j ==> que@[best as int].total_cost <= (#[trigger] que@[k]).total_cost,
            forall|k: int| 0 <= k < best ==> que@[best as int].total_cost < (#[trigger] que@[k]).total_cost,
        decreases que@.len() - j,
    {
        if que[j].cheaper_than(&que[best]) {
            best = j;
        }
        j = j + 1;
    }
    best
}

/// The nodes of a frontier without their links.
pub(crate) open spec fn views(frontier: Seq<Node>) -> Seq<Waiting> {
    Seq::new(frontier.len(), |k: int| frontier[k].waiting())
}

/// The state of a search between two expansions.
pub(crate) open spec fn searching(frontier: Seq<Node>, done: Set<Position>) -> Progress {
    Progress::Searching { frontier: views(frontier), done }
}

/// A search sets out with its first node alone in the frontier.
pub(crate) proof fn lemma_sets_out(terrain: Terrain, start: Position, target: Target, first: Node)
    requires
        first.route() == seq![start],
        first.cost == 0,
        first.total_cost == (terrain.heuristic)(start, target),
    ensures
        terrain.after(start, target, 0) == searching(seq![first], Set::empty()),
{
    assert(views(seq![first]) =~= seq![first.waiting()]);
}

/// One more expansion is one more step of the search.
pub(crate) proof fn lemma_one_more(terrain: Terrain, start: Position, target: Target, expansions: nat)
    ensures
        terrain.after(start, target, expansions + 1) == terrain.advance(
            target,
            terrain.after(start, target, expansions),
        ),
{
    assert((expansions + 1 - 1) as nat == expansions);
}

/// The node that `best_index` names is the one that the next expansion takes.
pub(crate) proof fn lemma_best_is_first(frontier: Seq<Node>, index: int)
    requires
        is_best(frontier, index),
    ensures
        first_best(views(frontier)) == index,
        views(frontier)[index] == frontier[index].waiting(),
        views(frontier).remove(index) == views(frontier.remove(index)),
{
    let plain = views(frontier);
    lemma_first_best(plain);
    let first = first_best(plain);
    assert(plain[first].total_cost == frontier[first].total_cost);
    assert(plain[index].total_cost == frontier[index].total_cost);
    assert(plain.remove(index) =~= views(frontier.remove(index)));
}

/// A node added to the frontier is added to what the stated search sees.
pub(crate) proof fn lemma_views_push(frontier: Seq<Node>, node: Node)
    ensures
        views(frontier.push(node)) == views(frontier).push(node.waiting()),
{
    assert(views(frontier.push(node)) =~= views(frontier).push(node.waiting()));
}

/// Taking the best node from the frontier begins the expansion that goes
/// through its neighbours from the first on.
pub(crate) proof fn lemma_advance_takes(
    terrain: Terrain,
    target: Target,
    before: Seq<Node>,
    index: int,
    done: Set<Position>,
)
    requires
        is_best(before, index),
    ensures
        terrain.advance(target, searching(before, done)) == terrain.offer(
            target,
            before[index].waiting(),
            done,
            (terrain.neighbors)(before[index].position),
            0,
            views(before.remove(index)),
        ),
{
    lemma_best_is_first(before, index);
    before[index].lemma_route_head();
}

/// Passing over a neighbour that is done leaves the frontier as it is.
pub(crate) proof fn lemma_offer_passes(
    terrain: Terrain,
    target: Target,
    top: Waiting,
    done: Set<Position>,
    offered: Seq<Position>,
    from: int,
    frontier: Seq<Waiting>,
)
    requires
        0 <= from < offered.len(),
        done.contains(offered[from]),
    ensures
        terrain.offer(target, top, done, offered, from, frontier) == terrain.offer(
            target,
            top,
            done,
            offered,
            from + 1,
            frontier,
        ),
{
}

/// A neighbour that is not done and misses the target gets its node.
pub(crate) proof fn lemma_offer_adds(
    terrain: Terrain,
    target: Target,
    top: Node,
    done: Set<Position>,
    offered: Seq<Position>,
    from: int,
    frontier: Seq<Node>,
    child: Node,
)
    requires
        0 <= from < offered.len(),
        !done.contains(offered[from]),
        !target_matches(target, offered[from]),
        child.waiting() == terrain.child(target, top.waiting(), offered[from]),
    ensures
        terrain.offer(target, top.waiting(), done, offered, from, views(frontier)) == terrain.offer(
            target,
            top.waiting(),
            done,
            offered,
            from + 1,
            views(frontier.push(child)),
        ),
{
    lemma_views_push(frontier, child);
}

/// A neighbour that is not done and meets the target ends the search.
pub(crate) proof fn lemma_offer_finds(
    terrain: Terrain,
    target: Target,
    top: Waiting,
    done: Set<Position>,
    offered: Seq<Position>,
    from: int,
    frontier: Seq<Waiting>,
)
    requires
        0 <= from < offered.len(),
        !done.contains(offered[from]),
        target_matches(target, offered[from]),
    ensures
        terrain.offer(target, top, done, offered, from, frontier) == Progress::Found(
            seq![offered[from]] + top.route,
        ),
{
}

/// The weight of all the nodes of a frontier together.
pub(crate) open spec fn load(frontier: Seq<Node>) -> nat
    decreases frontier.len(),
{
    if frontier.len() == 0 {
        0
    } else {
        load(frontier.drop_last()) + frontier.last().weight()
    }
}

/// A node added to the frontier adds its weight to the load.
pub(crate) proof fn lemma_load_push(frontier: Seq<Node>, node: Node)
    ensures
        load(frontier.push(node)) == load(frontier) + node.weight(),
{
    assert(frontier.push(node).drop_last() =~= frontier);
}

/// A node taken from the frontier takes its weight from the load.
pub(crate) proof fn lemma_load_remove(frontier: Seq<Node>, index: int)
    requires
        0 <= index < frontier.len(),
    ensures
        load(frontier.remove(index)) + frontier[index].weight() == load(frontier),
    decreases frontier.len(),
{
    if index == frontier.len() - 1 {
        assert(frontier.remove(index) =~= frontier.drop_last());
    } else {
        lemma_load_remove(frontier.drop_last(), index);
        assert(frontier.remove(index).drop_last() =~= frontier.drop_last().remove(index));
        assert(frontier.remove(index).last() == frontier.last());
    }
}

} // verus!
