use vstd::prelude::*;
use crate::adjacency::Adjacency;
use crate::domain::subset;
use crate::grid::{consistent, grid_ok, holds_every_fixpoint, within};
use crate::shape::volume;
use crate::direction::Direction;
use crate::vocabulary::{Example, TileVocabulary};

verus! {

/// Propagation is confluent: two propagations from the same grid `g0`,
/// whatever order their queues were processed in, end on the same grid.
/// (`Solver::propagate` ensures the premises of each result, with or without
/// a contradiction.)
pub proof fn lemma_propagation_confluent(
    adj: Adjacency,
    s: [usize; 3],
    wrap: bool,
    g0: Seq<Seq<bool>>,
    a: Seq<Seq<bool>>,
    b: Seq<Seq<bool>>,
)
    requires
        grid_ok(a, volume(s), adj.tiles()),
        grid_ok(b, volume(s), adj.tiles()),
        within(a, g0),
        within(b, g0),
        consistent(adj, s, wrap, a),
        consistent(adj, s, wrap, b),
        holds_every_fixpoint(adj, s, wrap, g0, a),
        holds_every_fixpoint(adj, s, wrap, g0, b),
    ensures
        a == b,
{
    assert(within(a, b));
    assert(within(b, a));
    assert forall|c: int| 0 <= c < a.len() implies #[trigger] a[c] == b[c] by {
        assert(subset(a[c], b[c]));
        assert(subset(b[c], a[c]));
        assert(a[c] =~= b[c]);
    }
    assert(a =~= b);
}

/// The universal mask is the union of the groups: every tile id, each of
/// which `bit_mask` sets, lies in the domain that `asset_bits` gives for its
/// own group, which is a known group; and every group's domain ranges over
/// the same tile ids as the mask, so it sets nothing outside it.
pub proof fn lemma_bit_mask_is_union_of_groups(v: TileVocabulary)
    ensures
        forall|t: int|
            0 <= t < v.tiles() ==> v.known_group(#[trigger] v.marker(t).0) && v.group_domain(v.marker(t).0)[t],
        forall|g: Seq<char>| (#[trigger] v.group_domain(g)).len() == v.tiles(),
{
    assert forall|t: int| 0 <= t < v.tiles() implies v.known_group(#[trigger] v.marker(t).0) && v.group_domain(v.marker(t).0)[t] by {
        assert(v.marker(t).0 == v.marker(t).0);
    }
}

/// Adjacency learned from examples is symmetric: tile `b` may sit next to
/// tile `a` in direction `d` exactly when `a` may sit next to `b` in the
/// opposite direction.
pub proof fn lemma_adjacency_symmetric(v: TileVocabulary, ex: Seq<Example>, d: Direction, a: int, b: int)
    requires
        v.learned_from(ex),
        0 <= a < v.tiles(),
        0 <= b < v.tiles(),
    ensures
        v.compat(d, a, b) == v.compat(d.spec_opposite(), b, a),
{
    assert(d.spec_opposite().spec_opposite() == d);
}

} // verus!
