//! The capability that a caller implements, and its tie to a terrain.
use vstd::prelude::*;
use crate::terrain::{Position, Target, Terrain};

verus! {

/// What a caller supplies to describe its search space.
///
/// A search only reads the generator. It asks for the positions that can be
/// entered from a position, for the cost of one such step, and for an
/// estimate of the cost that remains from a position to the target.
pub trait PathGenerator {
    fn generate_paths(&self, from_position: (usize, usize)) -> Vec<(usize, usize)>;

    fn calculate_heuristic_cost(
        &self,
        position: (usize, usize),
        target: (Option<usize>, Option<usize>),
    ) -> usize;

    fn calculate_cost(
        &self,
        current_position: (usize, usize),
        next_position: (usize, usize),
    ) -> usize;
}

/// Whether every answer that `generator` can give is the one that `terrain`
/// names for the question.
///
/// A generator that answers one question in two ways is described by no
/// terrain.
pub open spec fn describes<T: PathGenerator>(terrain: Terrain, generator: &T) -> bool {
    &&& forall|from: Position, paths: Vec<Position>| #[trigger]
        call_ensures(T::generate_paths, (generator, from), paths) ==> paths@ == (
        terrain.neighbors)(from)
    &&& forall|position: Position, target: Target, estimate: usize| #[trigger]
        call_ensures(T::calculate_heuristic_cost, (generator, position, target), estimate)
            ==> estimate == (terrain.heuristic)(position, target)
    &&& forall|from: Position, to: Position, cost: usize| #[trigger]
        call_ensures(T::calculate_cost, (generator, from, to), cost) ==> cost == (
        terrain.step_cost)(from, to)
}

/// Whether `to` is among the neighbours that `generator` can give for `from`.
pub open spec fn offers<T: PathGenerator>(generator: &T, from: Position, to: Position) -> bool {
    exists|paths: Vec<Position>| #[trigger]
        call_ensures(T::generate_paths, (generator, from), paths) && paths@.contains(to)
}

/// Whether the step that arrives at place `i` of `route` is one that
/// `generator` can offer.
pub open spec fn offers_step<T: PathGenerator>(generator: &T, route: Seq<Position>, i: int) -> bool {
    offers(generator, route[i + 1], route[i])
}

/// Whether `route`, read from its end to its head, takes only steps that
/// `generator` can offer.
pub open spec fn walks<T: PathGenerator>(generator: &T, route: Seq<Position>) -> bool {
    forall|i: int| 0 <= i < route.len() - 1 ==> #[trigger] offers_step(generator, route, i)
}

/// A walk with one more offered step at its head is a walk.
pub proof fn lemma_walks_on<T: PathGenerator>(
    generator: &T,
    route: Seq<Position>,
    paths: Vec<Position>,
    next: Position,
)
    requires
        walks(generator, route),
        route.len() >= 1,
        call_ensures(T::generate_paths, (generator, route[0]), paths),
        paths@.contains(next),
    ensures
        walks(generator, seq![next] + route),
{
    let longer = seq![next] + route;
    assert forall|i: int| 0 <= i < longer.len() - 1 implies #[trigger] offers_step(
        generator,
        longer,
        i,
    ) by {
        if i > 0 {
            assert(offers_step(generator, route, i - 1));
        }
    }
}

/// A terrain that describes the generator has every walk of the generator
/// as a route.
pub proof fn lemma_walk_is_route<T: PathGenerator>(
    terrain: Terrain,
    generator: &T,
    route: Seq<Position>,
)
    requires
        describes(terrain, generator),
        walks(generator, route),
        route.len() >= 1,
    ensures
        terrain.is_route(route),
{
    assert forall|i: int| 0 <= i < route.len() - 1 implies #[trigger] terrain.steps(route, i) by {
        assert(offers_step(generator, route, i));
    }
}

} // verus!
