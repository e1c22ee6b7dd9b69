use vstd::prelude::*;
use crate::adjacency::{allowed, Adjacency};
use crate::direction::Direction;
use crate::domain::{count_ones, lemma_count_bounds, lemma_count_subset, subset};
use crate::shape::{lemma_neighbor_in_range, neighbor, volume};

verus! {

/// One domain of `n` flags per cell.
pub open spec fn grid_ok(g: Seq<Seq<bool>>, cells: int, n: nat) -> bool {
    g.len() == cells && forall|c: int| 0 <= c < cells ==> (#[trigger] g[c]).len() == n
}

/// Some tile is still possible.
pub open spec fn has_some(dom: Seq<bool>) -> bool {
    exists|t: int| 0 <= t < dom.len() && #[trigger] dom[t]
}

/// Every tile left at the neighbor of `c` in direction `d` is allowed next to some tile left at `c`.
pub open spec fn supported_dir(adj: Adjacency, s: [usize; 3], wrap: bool, g: Seq<Seq<bool>>, c: int, d: Direction) -> bool {
    neighbor(s, c, d, wrap) is Some ==> {
        let j = neighbor(s, c, d, wrap)->Some_0;
        forall|t: int| 0 <= t < g[j].len() && #[trigger] g[j][t] ==> allowed(adj, g[c], d, t)
    }
}

pub open spec fn supported(adj: Adjacency, s: [usize; 3], wrap: bool, g: Seq<Seq<bool>>, c: int) -> bool {
    forall|d: Direction| #[trigger] supported_dir(adj, s, wrap, g, c, d)
}

/// Arc consistency: every cell supports each of its neighbors.
pub open spec fn consistent(adj: Adjacency, s: [usize; 3], wrap: bool, g: Seq<Seq<bool>>) -> bool {
    forall|c: int| 0 <= c < volume(s) ==> #[trigger] supported(adj, s, wrap, g, c)
}

/// Each cell of `g1` allows no more than the same cell of `g2`.
pub open spec fn within(g1: Seq<Seq<bool>>, g2: Seq<Seq<bool>>) -> bool {
    g1.len() == g2.len() && forall|c: int| 0 <= c < g1.len() ==> subset(#[trigger] g1[c], g2[c])
}

/// Every arc-consistent grid within `g0` is within `g`.
pub open spec fn holds_every_fixpoint(adj: Adjacency, s: [usize; 3], wrap: bool, g0: Seq<Seq<bool>>, g: Seq<Seq<bool>>) -> bool {
    forall|g2: Seq<Seq<bool>>|
        grid_ok(g2, volume(s), adj.tiles()) && #[trigger] consistent(adj, s, wrap, g2) && within(g2, g0) ==> within(g2, g)
}

/// `g` is the greatest arc-consistent grid within `g0`: what propagation from `g0` reaches.
pub open spec fn greatest_fixpoint(adj: Adjacency, s: [usize; 3], wrap: bool, g0: Seq<Seq<bool>>, g: Seq<Seq<bool>>) -> bool {
    &&& grid_ok(g, volume(s), adj.tiles())
    &&& consistent(adj, s, wrap, g)
    &&& within(g, g0)
    &&& holds_every_fixpoint(adj, s, wrap, g0, g)
}

/// Every cell has exactly one tile left.
pub open spec fn all_determined(g: Seq<Seq<bool>>) -> bool {
    forall|c: int| 0 <= c < g.len() ==> count_ones(#[trigger] g[c]) == 1
}

pub proof fn lemma_within_antisym(a: Seq<Seq<bool>>, b: Seq<Seq<bool>>)
    requires
        within(a, b),
        within(b, a),
    ensures
        a == b,
{
    assert forall|c: int| 0 <= c < a.len() implies #[trigger] a[c] == b[c] by {
        assert(subset(a[c], b[c]));
        assert(subset(b[c], a[c]));
        assert(a[c] =~= b[c]);
    }
    assert(a =~= b);
}

pub proof fn lemma_determined_has_some(g: Seq<Seq<bool>>)
    requires
        all_determined(g),
    ensures
        forall|c: int| 0 <= c < g.len() ==> has_some(#[trigger] g[c]),
{
    assert forall|c: int| 0 <= c < g.len() implies has_some(#[trigger] g[c]) by {
        lemma_count_bounds(g[c]);
        assert(count_ones(g[c]) == 1);
    }
}

/// The cells of a queue.
pub open spec fn seeds_of(q: Seq<usize>) -> Set<int> {
    Set::new(|c: int| 0 <= c <= usize::MAX && q.contains(c as usize))
}

/// Every cell of `g` that differs from `g0` was reached transitively from
/// `seeds`: it has a rank, and is a seed or the neighbor of a cell of lower
/// rank that is itself a seed or changed.
pub open spec fn reached_from(
    s: [usize; 3],
    wrap: bool,
    g0: Seq<Seq<bool>>,
    g: Seq<Seq<bool>>,
    seeds: Set<int>,
    rank: Map<int, nat>,
) -> bool {
    forall|c: int|
        0 <= c < volume(s) && #[trigger] g[c] != g0[c] ==> rank.dom().contains(c) && (seeds.contains(c) || exists|p: int, d: Direction|
            #[trigger] neighbor(s, p, d, wrap) == Some(c) && 0 <= p < volume(s) && rank.dom().contains(p) && rank[p] < rank[c]
                && (seeds.contains(p) || g[p] != g0[p]))
}

/// Every ranked cell is a cell of the box, ranked at most `clock`, and a seed or changed.
pub open spec fn ranked(s: [usize; 3], g0: Seq<Seq<bool>>, g: Seq<Seq<bool>>, seeds: Set<int>, rank: Map<int, nat>, clock: nat) -> bool {
    forall|c: int|
        #[trigger] rank.dom().contains(c) ==> 0 <= c < volume(s) && rank[c] <= clock && (seeds.contains(c) || g[c] != g0[c])
}

/// Narrowing the neighbor `j` of a ranked cell `c` keeps every change reached from the seeds.
pub proof fn lemma_reach_step(
    s: [usize; 3],
    wrap: bool,
    g0: Seq<Seq<bool>>,
    g: Seq<Seq<bool>>,
    seeds: Set<int>,
    rank: Map<int, nat>,
    clock: nat,
    c: int,
    d: Direction,
    j: int,
    x: Seq<bool>,
)
    requires
        g.len() == volume(s),
        within(g, g0),
        0 <= c < volume(s),
        0 <= j < volume(s),
        neighbor(s, c, d, wrap) == Some(j),
        subset(x, g[j]),
        x != g[j],
        reached_from(s, wrap, g0, g, seeds, rank),
        ranked(s, g0, g, seeds, rank, clock),
        rank.dom().contains(c),
    ensures
        ({
            let rank2 = if rank.dom().contains(j) { rank } else { rank.insert(j, clock + 1) };
            &&& reached_from(s, wrap, g0, g.update(j, x), seeds, rank2)
            &&& ranked(s, g0, g.update(j, x), seeds, rank2, clock + 1)
            &&& rank2.dom().contains(j)
            &&& forall|k: int| #[trigger] rank.dom().contains(k) ==> rank2.dom().contains(k)
        }),
{
    let g1 = g.update(j, x);
    let rank2 = if rank.dom().contains(j) { rank } else { rank.insert(j, clock + 1) };
    assert(within(g1, g)) by {
        assert forall|i: int| 0 <= i < g1.len() implies subset(#[trigger] g1[i], g[i]) by {
            if i != j {
                assert(g1[i] == g[i]);
            }
        }
    }
    assert(g1[j] != g0[j]) by {
        if g1[j] == g0[j] {
            assert(subset(g[j], g0[j]));
            assert(x =~= g[j]);
        }
    }
    assert forall|k: int| #[trigger] rank2.dom().contains(k) implies 0 <= k < volume(s) && rank2[k] <= clock + 1 && (seeds.contains(k)
        || g1[k] != g0[k]) by {
        if k != j || rank.dom().contains(j) {
            assert(rank.dom().contains(k));
            if !seeds.contains(k) && k != j {
                lemma_changed_stays(g0, g, g1, k);
            }
        }
    }
    assert forall|c2: int| 0 <= c2 < volume(s) && #[trigger] g1[c2] != g0[c2] implies rank2.dom().contains(c2) && (seeds.contains(c2)
        || exists|p: int, d2: Direction|
        #[trigger] neighbor(s, p, d2, wrap) == Some(c2) && 0 <= p < volume(s) && rank2.dom().contains(p) && rank2[p] < rank2[c2]
            && (seeds.contains(p) || g1[p] != g0[p])) by {
        if c2 == j && !rank.dom().contains(j) {
            if !seeds.contains(c2) {
                if !seeds.contains(c) {
                    lemma_changed_stays(g0, g, g1, c);
                }
                assert(neighbor(s, c, d, wrap) == Some(c2) && 0 <= c < volume(s) && rank2.dom().contains(c) && rank2[c] < rank2[c2]
                    && (seeds.contains(c) || g1[c] != g0[c]));
            }
        } else {
            if c2 != j {
                assert(g1[c2] == g[c2]);
            } else {
                assert(rank.dom().contains(j));
                if !seeds.contains(j) {
                    assert(g[j] != g0[j]);
                }
            }
            assert(g[c2] != g0[c2] || seeds.contains(c2));
            if !seeds.contains(c2) {
                let (p, d2) = choose|p: int, d2: Direction|
                    #[trigger] neighbor(s, p, d2, wrap) == Some(c2) && 0 <= p < volume(s) && rank.dom().contains(p) && rank[p] < rank[c2]
                        && (seeds.contains(p) || g[p] != g0[p]);
                if !seeds.contains(p) {
                    lemma_changed_stays(g0, g, g1, p);
                }
                assert(rank2[p] == rank[p]);
                assert(rank2[c2] == rank[c2]);
            }
        }
    }
}

/// Shrinking never undoes a change.
pub proof fn lemma_changed_stays(g0: Seq<Seq<bool>>, g: Seq<Seq<bool>>, g1: Seq<Seq<bool>>, c: int)
    requires
        within(g, g0),
        within(g1, g),
        0 <= c < g0.len(),
        g[c] != g0[c],
    ensures
        g1[c] != g0[c],
{
    if g1[c] == g0[c] {
        assert(subset(g1[c], g[c]));
        assert(subset(g[c], g0[c]));
        assert(g[c] =~= g0[c]);
    }
}

/// Total number of possible tiles over all cells.
pub open spec fn total(g: Seq<Seq<bool>>) -> nat
    decreases g.len(),
{
    if g.len() == 0 {
        0
    } else {
        total(g.drop_last()) + count_ones(g.last())
    }
}

pub proof fn lemma_total_shrink(g: Seq<Seq<bool>>, j: int, x: Seq<bool>)
    requires
        0 <= j < g.len(),
        subset(x, g[j]),
    ensures
        total(g.update(j, x)) <= total(g),
        x != g[j] ==> total(g.update(j, x)) < total(g),
    decreases g.len(),
{
    lemma_count_subset(x, g[j]);
    let g2 = g.update(j, x);
    if j == g.len() - 1 {
        assert(g2.drop_last() =~= g.drop_last());
    } else {
        assert(g2.drop_last() =~= g.drop_last().update(j, x));
        lemma_total_shrink(g.drop_last(), j, x);
    }
}

pub proof fn lemma_total_within(a: Seq<Seq<bool>>, b: Seq<Seq<bool>>)
    requires
        within(a, b),
    ensures
        total(a) <= total(b),
    decreases a.len(),
{
    if a.len() > 0 {
        let a2 = a.drop_last();
        let b2 = b.drop_last();
        assert forall|c: int| 0 <= c < a2.len() implies subset(#[trigger] a2[c], b2[c]) by {
            assert(subset(a[c], b[c]));
        }
        lemma_total_within(a2, b2);
        assert(subset(a[a.len() - 1], b[b.len() - 1]));
        lemma_count_subset(a.last(), b.last());
    }
}

pub proof fn lemma_within_refl(g: Seq<Seq<bool>>)
    ensures
        within(g, g),
{
}

pub proof fn lemma_within_trans(a: Seq<Seq<bool>>, b: Seq<Seq<bool>>, c: Seq<Seq<bool>>)
    requires
        within(a, b),
        within(b, c),
    ensures
        within(a, c),
{
    assert forall|i: int| 0 <= i < a.len() implies subset(#[trigger] a[i], c[i]) by {
        assert(subset(a[i], b[i]));
        assert(subset(b[i], c[i]));
    }
}

/// Shrinking cell `j` keeps the support of any other cell in any direction.
pub proof fn lemma_shrink_keeps_support_dir(
    adj: Adjacency,
    s: [usize; 3],
    wrap: bool,
    g: Seq<Seq<bool>>,
    j: int,
    x: Seq<bool>,
    c: int,
    d: Direction,
)
    requires
        g.len() == volume(s),
        0 <= j < g.len(),
        0 <= c < g.len(),
        c != j,
        subset(x, g[j]),
        supported_dir(adj, s, wrap, g, c, d),
    ensures
        supported_dir(adj, s, wrap, g.update(j, x), c, d),
{
    let g2 = g.update(j, x);
    lemma_neighbor_in_range(s, c, d, wrap);
    if neighbor(s, c, d, wrap) is Some {
        let k = neighbor(s, c, d, wrap)->Some_0;
        assert(g2[c] == g[c]);
        assert forall|t: int| 0 <= t < g2[k].len() && #[trigger] g2[k][t] implies allowed(adj, g2[c], d, t) by {
            if k == j {
                assert(g[k][t]);
            }
        }
    }
}

/// Shrinking cell `j` keeps every other cell's support.
pub proof fn lemma_shrink_keeps_support(
    adj: Adjacency,
    s: [usize; 3],
    wrap: bool,
    g: Seq<Seq<bool>>,
    j: int,
    x: Seq<bool>,
    c: int,
)
    requires
        g.len() == volume(s),
        0 <= j < g.len(),
        0 <= c < g.len(),
        c != j,
        subset(x, g[j]),
        supported(adj, s, wrap, g, c),
    ensures
        supported(adj, s, wrap, g.update(j, x), c),
{
    assert forall|d: Direction| #[trigger] supported_dir(adj, s, wrap, g.update(j, x), c, d) by {
        assert(supported_dir(adj, s, wrap, g, c, d));
        lemma_shrink_keeps_support_dir(adj, s, wrap, g, j, x, c, d);
    }
}

/// Narrowing the neighbor `j` of `c` to what `c` allows restores support in that direction,
/// and removes no tile of any arc-consistent grid within `g`.
pub proof fn lemma_narrow(
    adj: Adjacency,
    s: [usize; 3],
    wrap: bool,
    g: Seq<Seq<bool>>,
    c: int,
    d: Direction,
    j: int,
    x: Seq<bool>,
)
    requires
        adj.wf(),
        grid_ok(g, volume(s), adj.tiles()),
        0 <= c < g.len(),
        neighbor(s, c, d, wrap) == Some(j),
        0 <= j < g.len(),
        x.len() == adj.tiles(),
        forall|t: int| 0 <= t < x.len() ==> #[trigger] x[t] == (g[j][t] && allowed(adj, g[c], d, t)),
    ensures
        subset(x, g[j]),
        within(g.update(j, x), g),
        grid_ok(g.update(j, x), volume(s), adj.tiles()),
        c != j ==> supported_dir(adj, s, wrap, g.update(j, x), c, d),
        forall|g2: Seq<Seq<bool>>|
            grid_ok(g2, volume(s), adj.tiles()) && #[trigger] consistent(adj, s, wrap, g2) && within(g2, g) ==> within(
                g2,
                g.update(j, x),
            ),
        supported_dir(adj, s, wrap, g, c, d) ==> x == g[j],
{
    let g1 = g.update(j, x);
    assert(subset(x, g[j]));
    assert forall|i: int| 0 <= i < g1.len() implies subset(#[trigger] g1[i], g[i]) by {
        if i == j {
        } else {
            assert(g1[i] == g[i]);
        }
    }
    if c != j {
        assert(g1[c] == g[c]);
        assert forall|t: int| 0 <= t < g1[j].len() && #[trigger] g1[j][t] implies allowed(adj, g1[c], d, t) by {
            assert(x[t]);
        }
    }
    assert forall|g2: Seq<Seq<bool>>|
        grid_ok(g2, volume(s), adj.tiles()) && #[trigger] consistent(adj, s, wrap, g2) && within(g2, g) implies within(g2, g1) by {
        assert forall|i: int| 0 <= i < g2.len() implies subset(#[trigger] g2[i], g1[i]) by {
            assert(subset(g2[i], g[i]));
            if i == j {
                assert(supported(adj, s, wrap, g2, c));
                assert(supported_dir(adj, s, wrap, g2, c, d));
                assert(subset(g2[c], g[c]));
                assert forall|t: int| 0 <= t < g2[i].len() && #[trigger] g2[i][t] implies g1[i][t] by {
                    assert(g2[j][t]);
                    assert(neighbor(s, c, d, wrap)->Some_0 == j);
                    assert(g2[j].len() == adj.tiles());
                    assert(allowed(adj, g2[c], d, t));
                    let s2 = choose|s2: int| 0 <= s2 < g2[c].len() && g2[c][s2] && #[trigger] adj.compat(d, s2, t);
                    assert(g[c][s2]);
                    assert(allowed(adj, g[c], d, t));
                }
            } else {
                assert(g1[i] == g[i]);
            }
        }
    }
    if supported_dir(adj, s, wrap, g, c, d) {
        assert(g[j].len() == adj.tiles());
        assert(neighbor(s, c, d, wrap) is Some);
        assert(neighbor(s, c, d, wrap)->Some_0 == j);
        assert(supported_dir(adj, s, wrap, g, c, d) ==> (forall|t: int| 0 <= t < g[j].len() && #[trigger] g[j][t] ==> allowed(adj, g[c], d, t)));
        assert(forall|t: int| 0 <= t < g[j].len() && #[trigger] g[j][t] ==> allowed(adj, g[c], d, t));
        assert forall|t: int| 0 <= t < x.len() implies x[t] == g[j][t] by {
            if g[j][t] {
                assert(allowed(adj, g[c], d, t));
            }
        }
        assert(x =~= g[j]);
    }
}

} // verus!
