//! Search spaces as mathematics: positions, targets, routes and their cost,
//! and what it means for an estimate to be consistent.
use vstd::prelude::*;

verus! {

/// A cell of the search space: `(row, column)`.
pub type Position = (usize, usize);

/// A constraint on the cell to reach; an absent coordinate matches every value.
pub type Target = (Option<usize>, Option<usize>);

/// A search space as mathematics: which positions can be entered from a
/// position (in the order in which they are offered), what one step costs,
/// and what is estimated to remain from a position to the target.
pub struct Terrain {
    pub neighbors: spec_fn(Position) -> Seq<Position>,
    pub heuristic: spec_fn(Position, Target) -> usize,
    pub step_cost: spec_fn(Position, Position) -> usize,
}

/// `value`, or the largest `usize` where `value` is larger: what a sum of
/// costs is held as.
pub open spec fn clamp(value: int) -> usize {
    if value > usize::MAX {
        usize::MAX
    } else {
        value as usize
    }
}

/// Whether `position` meets `target`: each coordinate that the target names
/// must be equal, a coordinate it leaves out always passes.
pub open spec fn target_matches(target: Target, position: Position) -> bool {
    &&& (target.0 matches Some(row) ==> row == position.0)
    &&& (target.1 matches Some(column) ==> column == position.1)
}

impl Terrain {
    /// Whether `to` can be entered from `from` in one step.
    pub open spec fn joins(self, from: Position, to: Position) -> bool {
        (self.neighbors)(from).contains(to)
    }

    /// Whether the step that arrives at place `i` of `route` exists.
    pub open spec fn steps(self, route: Seq<Position>, i: int) -> bool {
        self.joins(route[i + 1], route[i])
    }

    /// Whether `route`, read from its end to its head, is a walk through the
    /// terrain. A route lists the position arrived at first and the position
    /// set out from last.
    pub open spec fn is_route(self, route: Seq<Position>) -> bool {
        &&& route.len() >= 1
        &&& forall|i: int| 0 <= i < route.len() - 1 ==> #[trigger] self.steps(route, i)
    }

    /// The sum of the costs of the steps of `route`.
    pub open spec fn route_cost(self, route: Seq<Position>) -> int
        decreases route.len(),
    {
        if route.len() <= 1 {
            0
        } else {
            (self.step_cost)(route[1], route[0]) + self.route_cost(route.skip(1))
        }
    }

    /// Whether `route` is one that a search from `start` for `target` may
    /// hand out: a walk of at least one step that sets out from `start` and
    /// arrives at a position that meets the target. The start is only
    /// accepted as the arrival of a single step from itself, because a search
    /// tests the positions it generates and never the one it set out from.
    pub open spec fn connects(self, start: Position, target: Target, route: Seq<Position>) -> bool {
        &&& self.is_route(route)
        &&& route.len() >= 2
        &&& route.last() == start
        &&& target_matches(target, route[0])
        &&& (route[0] != start || route.len() == 2)
    }

    /// Whether no route connects `start` with the target.
    pub open spec fn cut_off(self, start: Position, target: Target) -> bool {
        forall|route: Seq<Position>| !#[trigger] self.connects(start, target, route)
    }

    /// Whether `route` costs no more than any route that connects `start`
    /// with the target at less than the largest cost that can be held.
    pub open spec fn cheapest(self, start: Position, target: Target, route: Seq<Position>) -> bool {
        forall|rival: Seq<Position>| #[trigger]
            self.connects(start, target, rival) && self.route_cost(rival) < usize::MAX
                ==> self.route_cost(route) <= self.route_cost(rival)
    }

    /// Whether the estimate never drops by more than the cost of the step
    /// taken, and is zero wherever the target is met.
    pub open spec fn consistent(self, target: Target) -> bool {
        &&& forall|from: Position, to: Position| #[trigger]
            self.joins(from, to) ==> (self.heuristic)(from, target) <= (self.step_cost)(from, to)
                + (self.heuristic)(to, target)
        &&& forall|position: Position| #[trigger]
            target_matches(target, position) ==> (self.heuristic)(position, target) == 0
    }

    /// Whether the last step onto the target exceeds the estimate made before
    /// it by the same amount wherever the target is entered.
    pub open spec fn even_arrival(self, target: Target) -> bool {
        forall|from: Position, to: Position, other_from: Position, other_to: Position|
            #![trigger self.joins(from, to), self.joins(other_from, other_to)]
            self.joins(from, to) && target_matches(target, to) && self.joins(other_from, other_to)
                && target_matches(target, other_to) ==> (self.step_cost)(from, to) - (
            self.heuristic)(from, target) == (self.step_cost)(other_from, other_to) - (
            self.heuristic)(other_from, target)
    }

    /// A route that connects `start` with the target takes its first step
    /// to a neighbour of `start`.
    pub proof fn lemma_sets_out(self, start: Position, target: Target, route: Seq<Position>)
        requires
            self.connects(start, target, route),
        ensures
            self.joins(start, route[route.len() - 2]),
            (self.neighbors)(start).len() > 0,
    {
        assert(self.steps(route, route.len() - 2));
    }

    /// Where every step costs the same, a route costs that much for each
    /// of its steps.
    pub proof fn lemma_even_steps(self, each: usize, route: Seq<Position>)
        requires
            forall|from: Position, to: Position| #[trigger] (self.step_cost)(from, to) == each,
            route.len() >= 1,
        ensures
            self.route_cost(route) == each * (route.len() - 1),
        decreases route.len(),
    {
        if route.len() > 1 {
            self.lemma_even_steps(each, route.skip(1));
            let e = each as int;
            let n = route.len() as int;
            assert(e + e * (n - 2) == e * (n - 1)) by (nonlinear_arith);
        } else {
            assert(each * 0 == 0) by (nonlinear_arith);
        }
    }

    /// A route with one more step at its head costs that step more.
    pub proof fn lemma_extend(self, route: Seq<Position>, next: Position)
        requires
            self.is_route(route),
            self.joins(route[0], next),
        ensures
            self.is_route(seq![next] + route),
            self.route_cost(seq![next] + route) == (self.step_cost)(route[0], next)
                + self.route_cost(route),
    {
        let longer = seq![next] + route;
        assert(longer.skip(1) =~= route);
        assert forall|i: int| 0 <= i < longer.len() - 1 implies #[trigger] self.steps(
            longer,
            i,
        ) by {
            if i > 0 {
                assert(self.steps(route, i - 1));
            }
        }
    }

    /// What is left of a route after its first `n` places is a route.
    pub proof fn lemma_rest_is_route(self, route: Seq<Position>, n: int)
        requires
            self.is_route(route),
            0 <= n < route.len(),
        ensures
            self.is_route(route.skip(n)),
            route.skip(n).last() == route.last(),
            route.skip(n)[0] == route[n],
    {
        let rest = route.skip(n);
        assert forall|i: int| 0 <= i < rest.len() - 1 implies #[trigger] self.steps(rest, i) by {
            assert(self.steps(route, i + n));
        }
    }

    /// With a consistent estimate, cost so far plus estimate never shrinks
    /// along a route.
    pub proof fn lemma_estimate_grows(self, target: Target, route: Seq<Position>, n: int)
        requires
            self.consistent(target),
            self.is_route(route),
            0 <= n < route.len(),
        ensures
            self.route_cost(route.skip(n)) + (self.heuristic)(route[n], target) <= self.route_cost(
                route,
            ) + (self.heuristic)(route[0], target),
            0 <= self.route_cost(route.skip(n)) <= self.route_cost(route),
        decreases n,
    {
        if n == 0 {
            assert(route.skip(0) =~= route);
            self.lemma_cost_not_negative(route);
        } else {
            let rest = route.skip(1);
            self.lemma_rest_is_route(route, 1);
            self.lemma_estimate_grows(target, rest, n - 1);
            assert(rest.skip(n - 1) =~= route.skip(n));
            assert(self.steps(route, 0));
        }
    }

    /// No route costs less than nothing.
    pub proof fn lemma_cost_not_negative(self, route: Seq<Position>)
        ensures
            0 <= self.route_cost(route),
        decreases route.len(),
    {
        if route.len() > 1 {
            self.lemma_cost_not_negative(route.skip(1));
        }
    }
}

} // verus!
