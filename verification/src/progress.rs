//! Why a search ends: chains of nodes are bounded in length, and every
//! expansion makes the frontier lighter.
use vstd::prelude::*;
use vstd::set_lib::{lemma_int_range, lemma_len_subset, set_int_range};
use crate::terrain::Position;

verus! {

/// How many values a coordinate can take.
pub open spec fn side() -> int {
    usize::MAX + 1
}

/// How many positions there are.
pub open spec fn position_count() -> int {
    side() * side()
}

/// The longest that a sparse route can be.
pub open spec fn depth_limit() -> int {
    2 * position_count()
}

/// Whether no position of `route` occurs again two or more places later.
pub open spec fn sparse(route: Seq<Position>) -> bool {
    forall|i: int, j: int| 0 <= i && i + 2 <= j && j < route.len() ==> route[i] != route[j]
}

/// The number that stands for a position.
pub open spec fn code(position: Position) -> int {
    position.0 * side() + position.1
}

/// Every position has a code below the number of positions.
proof fn lemma_code_in_range(position: Position)
    ensures
        0 <= code(position) < position_count(),
{
    let m = side();
    let a = position.0 as int;
    let b = position.1 as int;
    assert(0 <= a * m && a * m + m <= m * m) by (nonlinear_arith)
        requires
            0 <= a < m,
    ;
}

/// Two positions with one code are one position.
proof fn lemma_code_tells_apart(p: Position, q: Position)
    requires
        code(p) == code(q),
    ensures
        p == q,
{
    let m = side();
    let a = p.0 as int;
    let b = p.1 as int;
    let c = q.0 as int;
    let d = q.1 as int;
    assert(a == c) by (nonlinear_arith)
        requires
            a * m + b == c * m + d,
            0 <= b < m,
            0 <= d < m,
    ;
}

/// Positions that are all different are no more than there are positions.
pub proof fn lemma_distinct_bounded(positions: Seq<Position>)
    requires
        positions.no_duplicates(),
    ensures
        positions.len() <= position_count(),
{
    let codes = Seq::new(positions.len(), |i: int| code(positions[i]));
    assert forall|i: int, j: int|
        0 <= i < codes.len() && 0 <= j < codes.len() && i != j implies codes[i] != codes[j] by {
        if codes[i] == codes[j] {
            lemma_code_tells_apart(positions[i], positions[j]);
        }
    }
    codes.unique_seq_to_set();
    let all = set_int_range(0, position_count());
    lemma_code_in_range((0, 0));
    lemma_int_range(0, position_count());
    assert forall|c: int| codes.to_set().contains(c) implies all.contains(c) by {
        let i = choose|i: int| 0 <= i < codes.len() && codes[i] == c;
        lemma_code_in_range(positions[i]);
    }
    lemma_len_subset(codes.to_set(), all);
}

/// A sparse route is no longer than the depth limit.
pub proof fn lemma_sparse_bounded(route: Seq<Position>)
    requires
        sparse(route),
    ensures
        route.len() <= depth_limit(),
{
    let half = (route.len() + 1) / 2;
    let evens = Seq::new(half as nat, |k: int| route[2 * k]);
    assert forall|i: int, j: int|
        0 <= i < evens.len() && 0 <= j < evens.len() && i != j implies evens[i] != evens[j] by {
        if i < j {
            assert(route[2 * i] != route[2 * j]);
        } else {
            assert(route[2 * j] != route[2 * i]);
        }
    }
    lemma_distinct_bounded(evens);
}

/// How many steps a route of `depth` places is short of the depth limit.
pub open spec fn spare(depth: nat) -> nat {
    if depth <= depth_limit() {
        (depth_limit() - depth) as nat
    } else {
        0
    }
}

/// What a node with `spare` steps to go weighs: more than all the nodes that
/// one expansion can put in its place.
pub open spec fn weight(spare: nat) -> nat
    decreases spare,
{
    if spare == 0 {
        1
    } else {
        (side() * weight((spare - 1) as nat)) as nat
    }
}

/// Every node weighs something.
pub proof fn lemma_weight_positive(spare: nat)
    ensures
        weight(spare) >= 1,
    decreases spare,
{
    if spare > 0 {
        lemma_weight_positive((spare - 1) as nat);
        let w = weight((spare - 1) as nat) as int;
        let m = side();
        assert(m * w >= 1) by (nonlinear_arith)
            requires
                m >= 1,
                w >= 1,
        ;
    }
}

/// As many lighter nodes as a vector can hold weigh less than one node that
/// has one more step to go.
pub proof fn lemma_weight_outweighs(spare: nat, count: nat)
    requires
        spare >= 1,
        count <= usize::MAX,
    ensures
        count * weight((spare - 1) as nat) < weight(spare),
{
    lemma_weight_positive((spare - 1) as nat);
    let w = weight((spare - 1) as nat) as int;
    let m = side();
    let c = count as int;
    assert(c * w < m * w) by (nonlinear_arith)
        requires
            0 <= c < m,
            w >= 1,
    ;
}

} // verus!
