use vstd::prelude::*;
use crate::adjacency::{allowed, Adjacency};
use crate::direction::Direction;
use crate::domain::{single_domain, count_ones, lemma_count_bounds, lemma_count_one_unique, lemma_count_shrink_single, subset, Domain};
use crate::error::WfcError;
use crate::grid::{
    all_determined, consistent, greatest_fixpoint, grid_ok, has_some, lemma_determined_has_some, lemma_within_antisym, lemma_reach_step, ranked, reached_from, seeds_of, holds_every_fixpoint, lemma_narrow, lemma_shrink_keeps_support, lemma_shrink_keeps_support_dir,
    lemma_total_shrink, lemma_total_within, lemma_within_refl, lemma_within_trans, supported, supported_dir, total, within,
};
use crate::shape::{lemma_coords_in_range, lemma_neighbor_in_range, neighbor, neighbor_index, valid_shape, volume};
use crate::vocabulary::TileVocabulary;
use crate::random::random_below;
use crate::region::{axis_of, in_region, narrowed, region_cells, region_ok, resolve};
use rand::rngs::StdRng;

verus! {

/// A voxel grid of domains, with the adjacency relation it is solved against.
pub struct Solver {
    cells: Vec<Domain>,
    shape: [usize; 3],
    wrap: bool,
    adjacency: Adjacency,
    settled: bool,
}

impl Solver {
    /// The domain of every cell, by flat index.
    pub closed spec fn grid(&self) -> Seq<Seq<bool>> {
        self.cells@.map_values(|dom: Domain| dom@)
    }

    pub closed spec fn spec_shape(&self) -> [usize; 3] {
        self.shape
    }

    pub closed spec fn spec_wrap(&self) -> bool {
        self.wrap
    }

    pub closed spec fn adj(&self) -> Adjacency {
        self.adjacency
    }

    /// The grid is known to be arc-consistent.
    pub closed spec fn is_settled(&self) -> bool {
        self.settled
    }

    pub open spec fn tiles(&self) -> nat {
        self.adj().tiles()
    }

    pub open spec fn cell_count(&self) -> int {
        volume(self.spec_shape())
    }

    pub open spec fn is_consistent(&self, g: Seq<Seq<bool>>) -> bool {
        consistent(self.adj(), self.spec_shape(), self.spec_wrap(), g)
    }

    pub open spec fn wf(&self) -> bool {
        &&& valid_shape(self.spec_shape())
        &&& self.adj().wf()
        &&& grid_ok(self.grid(), self.cell_count(), self.tiles())
        &&& self.is_settled() ==> self.is_consistent(self.grid())
    }

    /// Same shape, wrapping and adjacency relation.
    pub open spec fn same_setup(&self, other: &Solver) -> bool {
        &&& self.spec_shape() == other.spec_shape()
        &&& self.spec_wrap() == other.spec_wrap()
        &&& self.adj() == other.adj()
    }

    /// The result of propagating from `g0`: within it, and holding every arc-consistent grid within it.
    pub open spec fn propagated(&self, g0: Seq<Seq<bool>>, g: Seq<Seq<bool>>) -> bool {
        &&& within(g, g0)
        &&& holds_every_fixpoint(self.adj(), self.spec_shape(), self.spec_wrap(), g0, g)
    }

    /// A grid of shape `shape` whose every cell allows `initial_domain`, over the
    /// tiles of `vocabulary`; `wrap` joins opposite faces of the box.
    pub fn new(shape: [usize; 3], initial_domain: &Domain, vocabulary: &TileVocabulary, wrap: bool) -> (r: Solver)
        requires
            valid_shape(shape),
            vocabulary.wf(),
            initial_domain@.len() == vocabulary.tiles(),
        ensures
            r.wf(),
            r.spec_shape() == shape,
            r.spec_wrap() == wrap,
            r.tiles() == vocabulary.tiles(),
            forall|d: Direction, a: int, b: int|
                0 <= a < vocabulary.tiles() ==> #[trigger] r.adj().compat(d, a, b) == vocabulary.compat(d, a, b),
            forall|c: int| 0 <= c < volume(shape) ==> #[trigger] r.grid()[c] == initial_domain@,
    {
        let hd = shape[1] * shape[2];
        proof {
            assert(shape[0] * hd == volume(shape)) by (nonlinear_arith)
                requires hd == shape[1] * shape[2];
        }
        let count = shape[0] * hd;
        let mut cells: Vec<Domain> = Vec::new();
        let mut k: usize = 0;
        while k < count
            invariant
                k <= count,
                cells@.len() == k,
                forall|c: int| 0 <= c < k ==> (#[trigger] cells@[c])@ == initial_domain@,
            decreases count - k,
        {
            cells.push(initial_domain.copy());
            k = k + 1;
        }
        let r = Solver { cells, shape, wrap, adjacency: vocabulary.adjacency().copy(), settled: false };
        assert forall|c: int| 0 <= c < volume(shape) implies #[trigger] r.grid()[c] == initial_domain@ by {
            assert(r.grid()[c] == cells@[c]@);
        }
        r
    }

    /// The grid's dimensions.
    pub fn shape(&self) -> (r: [usize; 3])
        ensures
            r == self.spec_shape(),
    {
        self.shape
    }

    /// Whether opposite faces of the box are neighbors.
    pub fn wraps(&self) -> (r: bool)
        ensures
            r == self.spec_wrap(),
    {
        self.wrap
    }

    /// A copy with its own grid; `self` is left as it is.
    pub fn copy(&self) -> (r: Solver)
        requires
            self.wf(),
        ensures
            r.wf(),
            r.grid() == self.grid(),
            r.spec_shape() == self.spec_shape(),
            r.spec_wrap() == self.spec_wrap(),
            r.tiles() == self.tiles(),
            forall|d: Direction, a: int, b: int|
                0 <= a < self.tiles() ==> #[trigger] r.adj().compat(d, a, b) == self.adj().compat(d, a, b),
    {
        let mut cells: Vec<Domain> = Vec::new();
        let mut k: usize = 0;
        while k < self.cells.len()
            invariant
                k <= self.cells@.len(),
                cells@.len() == k,
                forall|c: int| 0 <= c < k ==> (#[trigger] cells@[c])@ == self.cells@[c]@,
            decreases self.cells@.len() - k,
        {
            cells.push(self.cells[k].copy());
            k = k + 1;
        }
        let r = Solver { cells, shape: self.shape, wrap: self.wrap, adjacency: self.adjacency.copy(), settled: false };
        assert(r.grid() =~= self.grid());
        r
    }

    /// The domain of cell `i`; `OutOfRange` when there is no such cell.
    pub fn domain_at(&self, i: usize) -> (r: Result<Domain, WfcError>)
        requires
            self.wf(),
        ensures
            r is Ok <==> i < self.cell_count(),
            r matches Err(err) ==> err == WfcError::OutOfRange,
            r matches Ok(dom) ==> dom@ == self.grid()[i as int],
    {
        if i < self.cells.len() {
            Ok(self.cells[i].copy())
        } else {
            Err(WfcError::OutOfRange)
        }
    }

    /// Restores arc consistency after the cells in `queue` have shrunk: each
    /// neighbor of a queued cell keeps only the tiles that the cell still
    /// allows, and a cell that shrinks is queued in turn, until the grid is
    /// arc-consistent. The result is the greatest arc-consistent grid within
    /// the old one, whatever the queue order, and every cell that changed was
    /// reached from the queue through cells that changed. `Contradiction` when
    /// some cell that had tiles has none left; the grid is then still that
    /// fixed point, so a failed attempt leaves a well-defined state.
    pub fn propagate(&mut self, queue: Vec<usize>) -> (r: Result<(), WfcError>)
        requires
            old(self).wf(),
            forall|q: int| 0 <= q < queue@.len() ==> #[trigger] queue@[q] < old(self).cell_count(),
            forall|c: int|
                0 <= c < old(self).cell_count() && !queue@.contains(c as usize) ==> #[trigger] supported(
                    old(self).adj(),
                    old(self).spec_shape(),
                    old(self).spec_wrap(),
                    old(self).grid(),
                    c,
                ),
        ensures
            final(self).wf(),
            final(self).same_setup(old(self)),
            final(self).propagated(old(self).grid(), final(self).grid()),
            final(self).is_consistent(final(self).grid()),
            final(self).is_settled(),
            r is Ok <==> forall|c: int|
                0 <= c < old(self).cell_count() && has_some(#[trigger] old(self).grid()[c]) ==> has_some(final(self).grid()[c]),
            r matches Err(err) ==> err == WfcError::Contradiction,
            old(self).is_consistent(old(self).grid()) ==> r is Ok && final(self).grid() == old(self).grid(),
            exists|rank: Map<int, nat>|
                #[trigger] reached_from(
                    old(self).spec_shape(),
                    old(self).spec_wrap(),
                    old(self).grid(),
                    final(self).grid(),
                    seeds_of(queue@),
                    rank,
                ),
    {
        let ghost g0 = self.grid();
        let ghost seeds = seeds_of(queue@);
        let ghost mut rank: Map<int, nat> = Map::new(|c: int| seeds.contains(c), |c: int| 0nat);
        let ghost mut clock: nat = 0;
        let ghost adj = self.adj();
        let ghost s = self.shape;
        let ghost wrap = self.wrap;
        let ghost n = self.tiles();
        let ghost vol = self.cell_count();
        self.settled = false;
        proof {
            lemma_within_refl(g0);
            assert(self.grid() == g0);
            assert forall|c: int|
                0 <= c < vol && !queue@.contains(c as usize) implies #[trigger] supported(adj, s, wrap, self.grid(), c) by {
                assert(supported(old(self).adj(), old(self).spec_shape(), old(self).spec_wrap(), old(self).grid(), c));
            }
        }
        proof {
            assert forall|q: int| 0 <= q < queue@.len() implies #[trigger] rank.dom().contains(queue@[q] as int) by {
                assert(queue@.contains(queue@[q]));
            }
            assert(reached_from(s, wrap, g0, self.grid(), seeds, rank));
            assert forall|c: int| #[trigger] rank.dom().contains(c) implies 0 <= c < vol && rank[c] <= clock && (seeds.contains(c)
                || self.grid()[c] != g0[c]) by {
                assert(seeds.contains(c));
                let idx = choose|idx: int| 0 <= idx < queue@.len() && queue@[idx] == c as usize;
                assert(queue@[idx] < vol);
            }
        }
        let mut queue = queue;
        let mut failed = false;
        while queue.len() > 0
            invariant
                self.adj() == adj,
                self.spec_shape() == s,
                self.spec_wrap() == wrap,
                valid_shape(s),
                adj.wf(),
                n == adj.tiles(),
                vol == volume(s),
                grid_ok(self.grid(), vol, n),
                self.cells@.len() == vol,
                !self.is_settled(),
                old(self).is_settled() ==> consistent(adj, s, wrap, g0),
                g0 == old(self).grid(),
                adj == old(self).adj(),
                s == old(self).spec_shape(),
                wrap == old(self).spec_wrap(),
                within(self.grid(), g0),
                holds_every_fixpoint(adj, s, wrap, g0, self.grid()),
                forall|q: int| 0 <= q < queue@.len() ==> #[trigger] queue@[q] < vol,
                forall|c: int|
                    0 <= c < vol && !queue@.contains(c as usize) ==> #[trigger] supported(adj, s, wrap, self.grid(), c),
                !failed ==> forall|c: int| 0 <= c < vol && has_some(#[trigger] g0[c]) ==> has_some(self.grid()[c]),
                failed ==> exists|c: int| 0 <= c < vol && has_some(#[trigger] g0[c]) && !has_some(self.grid()[c]),
                consistent(adj, s, wrap, g0) ==> !failed,
                reached_from(s, wrap, g0, self.grid(), seeds, rank),
                ranked(s, g0, self.grid(), seeds, rank, clock),
                forall|q: int| 0 <= q < queue@.len() ==> #[trigger] rank.dom().contains(queue@[q] as int),
                consistent(adj, s, wrap, g0) ==> self.grid() == g0,
            decreases total(self.grid()), queue@.len(),
        {
            let ghost q_before = queue@;
            let c = queue.pop().unwrap();
            proof {
                assert(rank.dom().contains(q_before[q_before.len() - 1] as int));
            }
            let ghost total_at = total(self.grid());
            let ghost q_after = queue@;
            proof {
                assert(q_before =~= q_after.push(c));
                assert(c < vol) by {
                    assert(q_before[q_before.len() - 1] == c);
                }
                assert forall|c2: int|
                    0 <= c2 < vol && c2 != c && !queue@.contains(c2 as usize) implies #[trigger] supported(adj, s, wrap, self.grid(), c2) by {
                    if q_before.contains(c2 as usize) {
                        let idx = choose|idx: int| 0 <= idx < q_before.len() && q_before[idx] == c2 as usize;
                        if idx < q_after.len() {
                            assert(q_after[idx] == c2 as usize);
                        }
                    }
                }
            }
            let mut k: usize = 0;
            while k < 6
                invariant
                    self.adj() == adj,
                    self.spec_shape() == s,
                    self.spec_wrap() == wrap,
                    valid_shape(s),
                    adj.wf(),
                    n == adj.tiles(),
                    vol == volume(s),
                    grid_ok(self.grid(), vol, n),
                    self.cells@.len() == vol,
                    !self.is_settled(),
                    old(self).is_settled() ==> consistent(adj, s, wrap, g0),
                    g0 == old(self).grid(),
                    adj == old(self).adj(),
                    s == old(self).spec_shape(),
                    wrap == old(self).spec_wrap(),
                adj == old(self).adj(),
                s == old(self).spec_shape(),
                wrap == old(self).spec_wrap(),
                    c < vol,
                    k <= 6,
                    within(self.grid(), g0),
                    holds_every_fixpoint(adj, s, wrap, g0, self.grid()),
                    forall|q: int| 0 <= q < queue@.len() ==> #[trigger] queue@[q] < vol,
                    forall|c2: int|
                        0 <= c2 < vol && c2 != c && !queue@.contains(c2 as usize) ==> #[trigger] supported(adj, s, wrap, self.grid(), c2),
                    queue@.contains(c) || forall|d: Direction| #[trigger] d.index() < k ==> supported_dir(adj, s, wrap, self.grid(), c as int, d),
                    !failed ==> forall|c2: int| 0 <= c2 < vol && has_some(#[trigger] g0[c2]) ==> has_some(self.grid()[c2]),
                    failed ==> exists|c2: int| 0 <= c2 < vol && has_some(#[trigger] g0[c2]) && !has_some(self.grid()[c2]),
                    consistent(adj, s, wrap, g0) ==> !failed,
                    rank.dom().contains(c as int),
                    reached_from(s, wrap, g0, self.grid(), seeds, rank),
                    ranked(s, g0, self.grid(), seeds, rank, clock),
                    forall|q: int| 0 <= q < queue@.len() ==> #[trigger] rank.dom().contains(queue@[q] as int),
                    consistent(adj, s, wrap, g0) ==> self.grid() == g0,
                    total(self.grid()) <= total_at,
                    total(self.grid()) == total_at ==> queue@ == q_after,
                decreases 6 - k,
            {
                let d = Direction::from_index(k);
                match neighbor_index(self.shape, c, d, self.wrap) {
                    Some(j) => {
                        proof {
                            assert(self.grid()[c as int] == self.cells@[c as int]@);
                            assert(self.grid()[j as int] == self.cells@[j as int]@);
                        }
                        let allowed_here = self.adjacency.allowed_from(&self.cells[c], d);
                        if !self.cells[j].is_subset_of(&allowed_here) {
                            let narrowed = self.cells[j].intersect(&allowed_here);
                            let empty = narrowed.first_one().is_none();
                            let ghost g = self.grid();
                            let ghost x = narrowed@;
                            proof {
                                assert(self.grid()[c as int] == self.cells@[c as int]@);
                                assert(self.grid()[j as int] == self.cells@[j as int]@);
                                lemma_narrow(adj, s, wrap, g, c as int, d, j as int, x);
                                lemma_total_shrink(g, j as int, x);
                                lemma_within_trans(g.update(j as int, x), g, g0);
                            }
                            self.cells.set(j, narrowed);
                            proof {
                                assert(self.grid() =~= g.update(j as int, x));
                                assert(x != g[j as int]) by {
                                    if x == g[j as int] {
                                        assert(subset(g[j as int], allowed_here@));
                                    }
                                }
                                assert forall|g2: Seq<Seq<bool>>|
                                    grid_ok(g2, volume(s), adj.tiles()) && #[trigger] consistent(adj, s, wrap, g2) && within(g2, g0) implies within(g2, self.grid()) by {
                                    assert(within(g2, g));
                                }
                            }
                            proof {
                                lemma_reach_step(s, wrap, g0, g, seeds, rank, clock, c as int, d, j as int, x);
                                if !rank.dom().contains(j as int) {
                                    rank = rank.insert(j as int, clock + 1);
                                }
                                clock = clock + 1;
                            }
                            let ghost was_failed = failed;
                            if empty {
                                proof {
                                    assert(!subset(g[j as int], allowed_here@));
                                    assert(has_some(g[j as int]));
                                    assert(subset(g[j as int], g0[j as int]));
                                    assert(has_some(g0[j as int])) by {
                                        let t = choose|t: int| 0 <= t < g[j as int].len() && #[trigger] g[j as int][t];
                                        assert(g0[j as int][t]);
                                    }
                                    assert(!has_some(self.grid()[j as int]));
                                    assert(self.adj() == old(self).adj());
                                    assert(self.spec_shape() == old(self).spec_shape());
                                    assert(self.spec_wrap() == old(self).spec_wrap());
                                    assert(0 <= j < vol && has_some(g0[j as int]) && !has_some(self.grid()[j as int]));
                                }
                                failed = true;
                            }
                            let ghost q_pre = queue@;
                            queue.push(j);
                            proof {
                                if consistent(adj, s, wrap, g0) {
                                    assert(supported(adj, s, wrap, g, c as int));
                                    assert(supported_dir(adj, s, wrap, g, c as int, d));
                                }
                                assert(queue@ =~= q_pre.push(j));
                                assert(queue@.contains(j)) by {
                                    assert(queue@[queue@.len() - 1] == j);
                                }
                                assert forall|c2: int|
                                    0 <= c2 < vol && c2 != c && !queue@.contains(c2 as usize) implies #[trigger] supported(adj, s, wrap, self.grid(), c2) by {
                                    if q_pre.contains(c2 as usize) {
                                        let idx = choose|idx: int| 0 <= idx < q_pre.len() && q_pre[idx] == c2 as usize;
                                        assert(queue@[idx] == c2 as usize);
                                    }
                                    assert(supported(adj, s, wrap, g, c2));
                                    lemma_shrink_keeps_support(adj, s, wrap, g, j as int, x, c2);
                                }
                                if !queue@.contains(c) {
                                    if q_pre.contains(c) {
                                        let idx = choose|idx: int| 0 <= idx < q_pre.len() && q_pre[idx] == c;
                                        assert(queue@[idx] == c);
                                    }
                                    assert(c != j);
                                    assert forall|d2: Direction| #[trigger] d2.index() < k + 1 implies supported_dir(adj, s, wrap, self.grid(), c as int, d2) by {
                                        if d2 != d {
                                            assert(supported_dir(adj, s, wrap, g, c as int, d2));
                                            lemma_shrink_keeps_support_dir(adj, s, wrap, g, j as int, x, c as int, d2);
                                        }
                                    }
                                }
                                if !failed {
                                    assert forall|c2: int| 0 <= c2 < vol && has_some(#[trigger] g0[c2]) implies has_some(self.grid()[c2]) by {
                                        if c2 == j {
                                            let t = choose|t: int| 0 <= t < x.len() && #[trigger] x[t];
                                            assert(self.grid()[c2][t]);
                                        } else {
                                            assert(self.grid()[c2] == g[c2]);
                                        }
                                    }
                                }
                                if was_failed {
                                    let c3 = choose|c3: int| 0 <= c3 < vol && has_some(#[trigger] g0[c3]) && !has_some(g[c3]);
                                    assert(!has_some(self.grid()[c3])) by {
                                        if has_some(self.grid()[c3]) {
                                            let t = choose|t: int| 0 <= t < self.grid()[c3].len() && #[trigger] self.grid()[c3][t];
                                            if c3 == j {
                                                assert(x[t]);
                                            } else {
                                                assert(self.grid()[c3] == g[c3]);
                                            }
                                            assert(g[c3][t]);
                                        }
                                    }
                                }
                            }
                        } else {
                            proof {
                                assert(self.grid()[c as int] == self.cells@[c as int]@);
                                assert(self.grid()[j as int] == self.cells@[j as int]@);
                                assert(neighbor(s, c as int, d, wrap)->Some_0 == j);
                                assert forall|t: int| 0 <= t < self.grid()[j as int].len() && #[trigger] self.grid()[j as int][t]
                                    implies allowed(adj, self.grid()[c as int], d, t) by {
                                    assert(allowed_here@[t]);
                                }
                                assert(supported_dir(adj, s, wrap, self.grid(), c as int, d));
                            }
                        }
                    },
                    None => {},
                }
                proof {
                    if !queue@.contains(c) {
                        assert forall|d2: Direction| #[trigger] d2.index() < k + 1 implies supported_dir(adj, s, wrap, self.grid(), c as int, d2) by {
                            if d2 == d {
                                assert(d.index() == k);
                            }
                        }
                    }
                }
                k = k + 1;
            }
            proof {
                if !queue@.contains(c) {
                    assert forall|d2: Direction| #[trigger] supported_dir(adj, s, wrap, self.grid(), c as int, d2) by {
                        assert(d2.index() < 6);
                    }
                }
            }
        }
        self.settled = true;
        proof {
            assert(reached_from(s, wrap, g0, self.grid(), seeds, rank));
        }
        if failed {
            Err(WfcError::Contradiction)
        } else {
            Ok(())
        }
    }

    /// The undetermined cell (two or more tiles left) with the fewest tiles
    /// left, the lowest index among equals; `None` when no cell is undetermined.
    pub fn find_min_entropy(&self) -> (r: Option<usize>)
        requires
            self.wf(),
        ensures
            r matches Some(c) ==> {
                &&& c < self.cell_count()
                &&& count_ones(self.grid()[c as int]) >= 2
                &&& forall|c2: int|
                    0 <= c2 < self.cell_count() && count_ones(#[trigger] self.grid()[c2]) >= 2 ==> count_ones(self.grid()[c as int])
                        <= count_ones(self.grid()[c2])
                &&& forall|c2: int|
                    0 <= c2 < c && count_ones(#[trigger] self.grid()[c2]) >= 2 ==> count_ones(self.grid()[c as int]) < count_ones(
                        self.grid()[c2],
                    )
            },
            r is None ==> forall|c2: int| 0 <= c2 < self.cell_count() ==> count_ones(#[trigger] self.grid()[c2]) < 2,
    {
        let mut best: Option<usize> = None;
        let mut best_count: usize = 0;
        let mut c: usize = 0;
        while c < self.cells.len()
            invariant
                self.wf(),
                c <= self.cell_count(),
                self.cells@.len() == self.cell_count(),
                best matches Some(b) ==> {
                    &&& b < c
                    &&& best_count == count_ones(self.grid()[b as int])
                    &&& count_ones(self.grid()[b as int]) >= 2
                    &&& forall|c2: int|
                        0 <= c2 < c && count_ones(#[trigger] self.grid()[c2]) >= 2 ==> best_count <= count_ones(self.grid()[c2])
                    &&& forall|c2: int| 0 <= c2 < b && count_ones(#[trigger] self.grid()[c2]) >= 2 ==> best_count < count_ones(self.grid()[c2])
                },
                best is None ==> forall|c2: int| 0 <= c2 < c ==> count_ones(#[trigger] self.grid()[c2]) < 2,
            decreases self.cell_count() - c,
        {
            let cnt = self.cells[c].count();
            assert(self.grid()[c as int] == self.cells@[c as int]@);
            if cnt >= 2 {
                match best {
                    None => {
                        best = Some(c);
                        best_count = cnt;
                    },
                    Some(_) => {
                        if cnt < best_count {
                            best = Some(c);
                            best_count = cnt;
                        }
                    },
                }
            }
            c = c + 1;
        }
        best
    }

    /// Commits cell `c` to the `pick`-th of its remaining tiles (counting in id
    /// order from zero), then propagates from it.
    pub fn collapse_cell(&mut self, c: usize, pick: usize) -> (r: Result<(), WfcError>)
        requires
            old(self).wf(),
            old(self).is_settled(),
            c < old(self).cell_count(),
            pick < count_ones(old(self).grid()[c as int]),
        ensures
            final(self).wf(),
            final(self).same_setup(old(self)),
            exists|t: int|
                0 <= t < old(self).tiles() && old(self).grid()[c as int][t] && #[trigger] count_ones(old(self).grid()[c as int].take(t)) == pick
                    && {
                    let g1 = old(self).grid().update(c as int, single_domain(old(self).tiles(), t));
                    &&& final(self).propagated(g1, final(self).grid())
                    &&& final(self).is_consistent(final(self).grid())
                    &&& final(self).is_settled()
                    &&& (r is Ok <==> forall|c2: int|
                        0 <= c2 < old(self).cell_count() && has_some(#[trigger] g1[c2]) ==> has_some(final(self).grid()[c2]))
                    &&& (r matches Err(err) ==> err == WfcError::Contradiction)
                },
    {
        let ghost g = self.grid();
        let ghost adj = self.adj();
        let ghost s = self.shape;
        let ghost wrap = self.wrap;
        let n = self.adjacency.tile_count();
        assert(self.grid()[c as int] == self.cells@[c as int]@);
        let t = self.cells[c].nth_one(pick);
        let single = Domain::single(n, t);
        let ghost x = single@;
        self.cells.set(c, single);
        self.settled = false;
        let ghost g1 = self.grid();
        proof {
            assert(x =~= Seq::new(n as nat, |u: int| u == t));
            assert(g1 =~= g.update(c as int, x));
            assert(subset(x, g[c as int]));
            assert forall|c2: int| 0 <= c2 < self.cell_count() && c2 != c implies #[trigger] supported(adj, s, wrap, g1, c2) by {
                lemma_shrink_keeps_support(adj, s, wrap, g, c as int, x, c2);
            }
            assert forall|c2: int| 0 <= c2 < self.cell_count() implies (#[trigger] g1[c2]).len() == n by {
                if c2 != c {
                    assert(g1[c2] == g[c2]);
                }
            }
        }
        let mut queue: Vec<usize> = Vec::new();
        queue.push(c);
        proof {
            assert(queue@[0] == c);
            assert forall|c2: int|
                0 <= c2 < self.cell_count() && !queue@.contains(c2 as usize) implies #[trigger] supported(adj, s, wrap, g1, c2) by {
                if c2 == c {
                    assert(queue@.contains(c));
                }
            }
        }
        let r = self.propagate(queue);
        proof {
            let tt: int = t as int;
            assert(0 <= tt < n && g[c as int][tt] && count_ones(g[c as int].take(tt)) == pick);
            assert(x =~= single_domain(old(self).tiles(), tt));
            assert(g1 == old(self).grid().update(c as int, single_domain(old(self).tiles(), tt)));
            assert(self.propagated(g1, self.grid()));
            assert(self.is_consistent(self.grid()) && self.is_settled());
        }
        r
    }

    /// Runs the solver to the end: makes the grid arc-consistent, then
    /// repeatedly commits the undetermined cell with the fewest tiles left to a
    /// tile drawn uniformly from `rng` among them, and propagates. Returns the
    /// tile of every cell, or `Contradiction` when some cell runs out of tiles.
    pub fn solve(&mut self, rng: &mut StdRng) -> (r: Result<Vec<usize>, WfcError>)
        requires
            old(self).wf(),
        ensures
            final(self).wf(),
            final(self).same_setup(old(self)),
            within(final(self).grid(), old(self).grid()),
            r matches Err(err) ==> err == WfcError::Contradiction,
            (exists|g: Seq<Seq<bool>>|
                greatest_fixpoint(old(self).adj(), old(self).spec_shape(), old(self).spec_wrap(), old(self).grid(), g)
                    && #[trigger] all_determined(g)) ==> r is Ok,
            r matches Ok(tiles) ==> {
                &&& tiles@.len() == old(self).cell_count()
                &&& forall|c: int|
                    0 <= c < tiles@.len() ==> #[trigger] final(self).grid()[c] == single_domain(old(self).tiles(), tiles@[c] as int)
                &&& forall|c: int|
                    0 <= c < tiles@.len() ==> #[trigger] tiles@[c] < old(self).tiles() && old(self).grid()[c][tiles@[c] as int]
                &&& forall|c: int, d: Direction|
                    0 <= c < tiles@.len() && #[trigger] neighbor(old(self).spec_shape(), c, d, old(self).spec_wrap()) is Some
                        ==> old(self).adj().compat(
                        d,
                        tiles@[c] as int,
                        tiles@[neighbor(old(self).spec_shape(), c, d, old(self).spec_wrap())->Some_0] as int,
                    )
            },
    {
        let ghost g0 = self.grid();
        proof {
            lemma_within_refl(g0);
        }
        let vol = self.cells.len();
        let ghost determined = exists|g: Seq<Seq<bool>>|
            greatest_fixpoint(self.adj(), self.spec_shape(), self.spec_wrap(), g0, g) && #[trigger] all_determined(g);
        let ghost gs = choose|g: Seq<Seq<bool>>|
            greatest_fixpoint(self.adj(), self.spec_shape(), self.spec_wrap(), g0, g) && #[trigger] all_determined(g);
        if self.settled {
            proof {
                if determined {
                    assert(within(g0, gs));
                    lemma_within_antisym(g0, gs);
                }
            }
        } else {
            let mut all: Vec<usize> = Vec::new();
            let mut k: usize = 0;
            while k < vol
                invariant
                    k <= vol,
                    all@.len() == k,
                    forall|q: int| 0 <= q < k ==> #[trigger] all@[q] == q,
                decreases vol - k,
            {
                all.push(k);
                k = k + 1;
            }
            proof {
                assert forall|c: int| 0 <= c < vol implies #[trigger] all@.contains(c as usize) by {
                    assert(all@[c] == c);
                }
            }
            let p = self.propagate(all);
            proof {
                if determined {
                    assert(within(self.grid(), gs));
                    assert(within(gs, self.grid()));
                    lemma_within_antisym(self.grid(), gs);
                    lemma_determined_has_some(gs);
                }
            }
            if p.is_err() {
                return Err(WfcError::Contradiction);
            }
        }
        loop
            invariant
                self.wf(),
                self.is_settled(),
                self.same_setup(old(self)),
                within(self.grid(), g0),
                g0 == old(self).grid(),
                vol == self.cell_count(),
                determined ==> all_determined(self.grid()),
                determined == (exists|g: Seq<Seq<bool>>|
                    greatest_fixpoint(old(self).adj(), old(self).spec_shape(), old(self).spec_wrap(), old(self).grid(), g)
                        && #[trigger] all_determined(g)),
            ensures
                determined ==> all_determined(self.grid()),
                self.wf(),
                self.is_settled(),
                self.same_setup(old(self)),
                within(self.grid(), g0),
                forall|c2: int| 0 <= c2 < vol ==> count_ones(#[trigger] self.grid()[c2]) < 2,
            decreases total(self.grid()),
        {
            match self.find_min_entropy() {
                None => {
                    break;
                },
                Some(c) => {
                    proof {
                        if determined {
                            assert(count_ones(self.grid()[c as int]) == 1);
                        }
                    }
                    assert(self.grid()[c as int] == self.cells@[c as int]@);
                    let cnt = self.cells[c].count();
                    let pick = random_below(rng, cnt);
                    let ghost g = self.grid();
                    let res = self.collapse_cell(c, pick);
                    proof {
                        let t = choose|t: int|
                            0 <= t < g[c as int].len() && g[c as int][t] && count_ones(g[c as int].take(t)) == pick && {
                                let g1 = g.update(c as int, single_domain(self.tiles(), t));
                                self.propagated(g1, self.grid())
                            };
                        let x = single_domain(self.tiles(), t);
                        let g1 = g.update(c as int, x);
                        assert(subset(x, g[c as int]));
                        lemma_total_shrink(g, c as int, x);
                        assert(x != g[c as int]) by {
                            lemma_count_bounds(x);
                            if x == g[c as int] {
                                assert forall|u: int| 0 <= u < x.len() && x[u] implies u == t by {}
                                lemma_count_shrink_single(x, t);
                            }
                        }
                        lemma_total_within(self.grid(), g1);
                        assert(within(g1, g)) by {
                            assert forall|i: int| 0 <= i < g1.len() implies subset(#[trigger] g1[i], g[i]) by {
                                if i != c {
                                    assert(g1[i] == g[i]);
                                }
                            }
                        }
                        lemma_within_trans(self.grid(), g1, g);
                        lemma_within_trans(self.grid(), g, g0);
                    }
                    if res.is_err() {
                        return Err(WfcError::Contradiction);
                    }
                },
            }
        }
        let mut tiles: Vec<usize> = Vec::new();
        let mut c: usize = 0;
        while c < vol
            invariant
                self.wf(),
                self.is_settled(),
                self.same_setup(old(self)),
                within(self.grid(), g0),
                g0 == old(self).grid(),
                vol == self.cell_count(),
                determined ==> all_determined(self.grid()),
                determined == (exists|g: Seq<Seq<bool>>|
                    greatest_fixpoint(old(self).adj(), old(self).spec_shape(), old(self).spec_wrap(), old(self).grid(), g)
                        && #[trigger] all_determined(g)),
                c <= vol,
                forall|c2: int| 0 <= c2 < vol ==> count_ones(#[trigger] self.grid()[c2]) < 2,
                tiles@.len() == c,
                forall|c2: int| 0 <= c2 < c ==> #[trigger] tiles@[c2] < self.tiles() && self.grid()[c2][tiles@[c2] as int],
            decreases vol - c,
        {
            assert(self.grid()[c as int] == self.cells@[c as int]@);
            match self.cells[c].first_one() {
                None => {
                    proof {
                        if determined {
                            lemma_count_bounds(self.grid()[c as int]);
                            assert(count_ones(self.grid()[c as int]) == 1);
                        }
                    }
                    return Err(WfcError::Contradiction);
                },
                Some(t) => {
                    tiles.push(t);
                },
            }
            c = c + 1;
        }
        proof {
            let g = self.grid();
            let adj = self.adj();
            let s = self.spec_shape();
            let wrap = self.spec_wrap();
            assert forall|c: int, d: Direction|
                0 <= c < tiles@.len() && #[trigger] neighbor(s, c, d, wrap) is Some implies adj.compat(
                d,
                tiles@[c] as int,
                tiles@[neighbor(s, c, d, wrap)->Some_0] as int,
            ) by {
                let j = neighbor(s, c, d, wrap)->Some_0;
                lemma_neighbor_in_range(s, c, d, wrap);
                assert(supported(adj, s, wrap, g, c));
                assert(supported_dir(adj, s, wrap, g, c, d));
                let tj = tiles@[j] as int;
                assert(g[j][tj]);
                assert(allowed(adj, g[c], d, tj));
                let s2 = choose|s2: int| 0 <= s2 < g[c].len() && g[c][s2] && #[trigger] adj.compat(d, s2, tj);
                lemma_count_bounds(g[c]);
                assert(count_ones(g[c]) == 1);
                lemma_count_one_unique(g[c], s2, tiles@[c] as int);
            }
            assert forall|c: int|
                0 <= c < tiles@.len() implies #[trigger] g[c] == single_domain(old(self).tiles(), tiles@[c] as int) by {
                let tc = tiles@[c] as int;
                lemma_count_bounds(g[c]);
                assert forall|u: int| 0 <= u < g[c].len() implies g[c][u] == (u == tc) by {
                    if g[c][u] {
                        lemma_count_one_unique(g[c], u, tc);
                    }
                }
                assert(g[c] =~= single_domain(old(self).tiles(), tc));
            }
            assert forall|c: int| 0 <= c < tiles@.len() implies #[trigger] tiles@[c] < old(self).tiles() && old(self).grid()[c][tiles@[c] as int] by {
                assert(subset(g[c], g0[c]));
            }
        }
        Ok(tiles)
    }

    /// The fixed coordinate resolved against the axis of `d`, when the region is valid.
    fn check_region(&self, fixed: i64, d: Direction, ra: [usize; 2], rb: [usize; 2]) -> (r: Option<usize>)
        requires
            self.wf(),
        ensures
            r is Some <==> region_ok(self.spec_shape(), d, fixed as int, ra, rb),
            r matches Some(f) ==> f as int == resolve(self.spec_shape()[axis_of(d)] as int, fixed as int),
    {
        let s = self.shape;
        let (axis, a, b): (usize, usize, usize) = match d {
            Direction::PosX | Direction::NegX => (0, 1, 2),
            Direction::PosY | Direction::NegY => (1, 0, 2),
            Direction::PosZ | Direction::NegZ => (2, 0, 1),
        };
        let len = s[axis] as i128;
        let f = fixed as i128;
        let resolved: i128 = if f >= 0 { f } else { len + f };
        if resolved < 0 || resolved >= len || ra[1] > s[a] || rb[1] > s[b] {
            return None;
        }
        Some(resolved as usize)
    }

    /// Narrows every cell of the region to `restriction`; returns the region's cells.
    fn narrow_region(&mut self, restriction: &Domain, fixed: usize, d: Direction, ra: [usize; 2], rb: [usize; 2]) -> (targets: Vec<usize>)
        requires
            old(self).wf(),
            restriction@.len() == old(self).tiles(),
            fixed < old(self).spec_shape()[axis_of(d)],
        ensures
            final(self).same_setup(old(self)),
            final(self).grid() == narrowed(old(self).grid(), old(self).spec_shape(), d, fixed as int, ra, rb, restriction@),
            grid_ok(final(self).grid(), old(self).cell_count(), old(self).tiles()),
            valid_shape(final(self).spec_shape()),
            final(self).adj().wf(),
            !final(self).is_settled(),
            forall|q: int| 0 <= q < targets@.len() ==> #[trigger] targets@[q] < old(self).cell_count(),
            seeds_of(targets@) == region_cells(old(self).spec_shape(), d, fixed as int, ra, rb),
            old(self).is_settled() ==> forall|c: int|
                0 <= c < old(self).cell_count() && !targets@.contains(c as usize) ==> #[trigger] supported(
                    final(self).adj(),
                    final(self).spec_shape(),
                    final(self).spec_wrap(),
                    final(self).grid(),
                    c,
                ),
    {
        let ghost g0 = self.grid();
        let ghost adj = self.adj();
        let ghost sh = self.shape;
        let ghost wrap = self.wrap;
        let ghost settled0 = self.settled;
        let ghost target = narrowed(g0, sh, d, fixed as int, ra, rb, restriction@);
        self.settled = false;
        let s = self.shape;
        let vol = self.cells.len();
        let mut targets: Vec<usize> = Vec::new();
        let mut c: usize = 0;
        while c < vol
            invariant
                c <= vol,
                vol == volume(s),
                s == sh,
                self.spec_shape() == sh,
                self.spec_wrap() == wrap,
                self.adj() == adj,
                adj == old(self).adj(),
                sh == old(self).spec_shape(),
                wrap == old(self).spec_wrap(),
                g0 == old(self).grid(),
                settled0 == old(self).is_settled(),
                !self.is_settled(),
                valid_shape(s),
                adj.wf(),
                restriction@.len() == adj.tiles(),
                target == narrowed(g0, sh, d, fixed as int, ra, rb, restriction@),
                grid_ok(g0, vol as int, adj.tiles()),
                grid_ok(self.grid(), vol as int, adj.tiles()),
                self.cells@.len() == vol,
                forall|i: int| 0 <= i < c ==> #[trigger] self.grid()[i] == target[i],
                forall|i: int| c <= i < vol ==> #[trigger] self.grid()[i] == g0[i],
                forall|q: int| 0 <= q < targets@.len() ==> #[trigger] targets@[q] < c,
                forall|i: int| 0 <= i < c ==> (targets@.contains(i as usize) <==> #[trigger] in_region(sh, d, fixed as int, ra, rb, i)),
                settled0 ==> consistent(adj, sh, wrap, g0),
                settled0 ==> forall|i: int|
                    0 <= i < vol && !targets@.contains(i as usize) ==> #[trigger] supported(adj, sh, wrap, self.grid(), i),
            decreases vol - c,
        {
            proof {
                lemma_coords_in_range(s, c as int);
            }
            let hd = s[1] * s[2];
            let x = c / hd;
            let y = (c % hd) / s[2];
            let z = c % s[2];
            let (on, pa, pb) = match d {
                Direction::PosX | Direction::NegX => (x, y, z),
                Direction::PosY | Direction::NegY => (y, x, z),
                Direction::PosZ | Direction::NegZ => (z, x, y),
            };
            let inside = on == fixed && ra[0] <= pa && pa < ra[1] && rb[0] <= pb && pb < rb[1];
            assert(inside == in_region(sh, d, fixed as int, ra, rb, c as int));
            if inside {
                assert(self.grid()[c as int] == self.cells@[c as int]@);
                let nd = self.cells[c].intersect(restriction);
                let ghost g = self.grid();
                let ghost xd = nd@;
                self.cells.set(c, nd);
                let ghost q_pre = targets@;
                targets.push(c);
                proof {
                    assert(targets@ =~= q_pre.push(c));
                    assert(targets@[targets@.len() - 1] == c);
                    assert forall|i: int| 0 <= i < c + 1 implies (targets@.contains(i as usize) <==> #[trigger] in_region(sh, d, fixed as int, ra, rb, i)) by {
                        if q_pre.contains(i as usize) {
                            let idx = choose|idx: int| 0 <= idx < q_pre.len() && q_pre[idx] == i as usize;
                            assert(targets@[idx] == i as usize);
                        }
                        if targets@.contains(i as usize) && i != c {
                            let idx = choose|idx: int| 0 <= idx < targets@.len() && targets@[idx] == i as usize;
                            assert(idx < q_pre.len());
                            assert(q_pre[idx] == i as usize);
                        }
                    }
                    assert(self.grid() =~= g.update(c as int, xd));
                    assert(xd =~= target[c as int]);
                    assert(subset(xd, g[c as int]));
                    if settled0 {
                        assert forall|i: int|
                            0 <= i < vol && !targets@.contains(i as usize) implies #[trigger] supported(adj, sh, wrap, self.grid(), i) by {
                            if q_pre.contains(i as usize) {
                                let idx = choose|idx: int| 0 <= idx < q_pre.len() && q_pre[idx] == i as usize;
                                assert(targets@[idx] == i as usize);
                            }
                            if i == c {
                                assert(targets@[targets@.len() - 1] == c);
                            }
                            lemma_shrink_keeps_support(adj, sh, wrap, g, c as int, xd, i);
                        }
                    }
                }
            } else {
                proof {
                    assert(self.grid()[c as int] == target[c as int]);
                    assert(!targets@.contains(c)) by {
                        if targets@.contains(c) {
                            let idx = choose|idx: int| 0 <= idx < targets@.len() && targets@[idx] == c;
                        }
                    }
                }
            }
            c = c + 1;
        }
        proof {
            assert(self.grid() =~= target);
            assert forall|i: int| #[trigger] seeds_of(targets@).contains(i) == region_cells(sh, d, fixed as int, ra, rb).contains(i) by {
                if seeds_of(targets@).contains(i) {
                    let idx = choose|idx: int| 0 <= idx < targets@.len() && targets@[idx] == i as usize;
                    assert(targets@[idx] < vol);
                }
            }
            assert(seeds_of(targets@) =~= region_cells(sh, d, fixed as int, ra, rb));
        }
        targets
    }

    /// Narrows every cell of a region to the tiles of `restriction`, without
    /// propagating. The region is the layer at `fixed` across the axis of `d`
    /// (a negative `fixed` counts back from the far end), limited to the
    /// half-open ranges `ra` and `rb` on the two other axes in increasing axis
    /// order. `OutOfRange`, with the grid unchanged, when the layer is outside
    /// the grid or a range ends past its axis.
    pub fn restrict_region(&mut self, restriction: &Domain, fixed: i64, d: Direction, ra: [usize; 2], rb: [usize; 2]) -> (r: Result<(), WfcError>)
        requires
            old(self).wf(),
            restriction@.len() == old(self).tiles(),
        ensures
            final(self).wf(),
            final(self).same_setup(old(self)),
            r is Ok <==> region_ok(old(self).spec_shape(), d, fixed as int, ra, rb),
            r matches Err(err) ==> err == WfcError::OutOfRange && final(self).grid() == old(self).grid(),
            r is Ok ==> forall|c: int|
                0 <= c < old(self).cell_count() ==> #[trigger] final(self).grid()[c] == if in_region(
                    old(self).spec_shape(),
                    d,
                    fixed as int,
                    ra,
                    rb,
                    c,
                ) {
                    Seq::new(old(self).tiles(), |t: int| old(self).grid()[c][t] && restriction@[t])
                } else {
                    old(self).grid()[c]
                },
    {
        match self.check_region(fixed, d, ra, rb) {
            None => Err(WfcError::OutOfRange),
            Some(f) => {
                let _ = self.narrow_region(restriction, f, d, ra, rb);
                proof {
                    assert forall|c: int| 0 <= c < old(self).cell_count() implies #[trigger] self.grid()[c] == if in_region(
                        old(self).spec_shape(),
                        d,
                        fixed as int,
                        ra,
                        rb,
                        c,
                    ) {
                        Seq::new(old(self).tiles(), |t: int| old(self).grid()[c][t] && restriction@[t])
                    } else {
                        old(self).grid()[c]
                    } by {
                        if in_region(old(self).spec_shape(), d, fixed as int, ra, rb, c) {
                            assert(self.grid()[c] =~= Seq::new(old(self).tiles(), |t: int| old(self).grid()[c][t] && restriction@[t]));
                        }
                    }
                }
                Ok(())
            },
        }
    }

    /// Boundary seeding: narrows a region as `restrict_region` does, then
    /// propagates from exactly the narrowed cells when the grid is already
    /// arc-consistent; changes outside the region are then only those that
    /// propagation reaches from it. When the grid is not yet arc-consistent
    /// (right after `new`), propagation deliberately starts from every cell,
    /// so that the result is always the greatest arc-consistent grid within
    /// the narrowed one, as a solve would need anyway. `OutOfRange` for a bad
    /// region, `Contradiction` when some cell runs out of tiles.
    pub fn collapse_along_axis(&mut self, restriction: &Domain, fixed: i64, d: Direction, ra: [usize; 2], rb: [usize; 2]) -> (r: Result<(), WfcError>)
        requires
            old(self).wf(),
            restriction@.len() == old(self).tiles(),
        ensures
            final(self).wf(),
            final(self).same_setup(old(self)),
            !region_ok(old(self).spec_shape(), d, fixed as int, ra, rb) ==> r == Err::<(), WfcError>(WfcError::OutOfRange)
                && final(self).grid() == old(self).grid(),
            region_ok(old(self).spec_shape(), d, fixed as int, ra, rb) ==> {
                let g1 = narrowed(old(self).grid(), old(self).spec_shape(), d,
                    resolve(old(self).spec_shape()[axis_of(d)] as int, fixed as int), ra, rb, restriction@);
                &&& final(self).propagated(g1, final(self).grid())
                &&& final(self).is_consistent(final(self).grid())
                &&& final(self).is_settled()
                &&& (r is Ok <==> forall|c: int|
                    0 <= c < old(self).cell_count() && has_some(#[trigger] g1[c]) ==> has_some(final(self).grid()[c]))
                &&& (r matches Err(err) ==> err == WfcError::Contradiction)
                &&& (old(self).is_settled() ==> exists|rank: Map<int, nat>|
                    #[trigger] reached_from(
                        old(self).spec_shape(),
                        old(self).spec_wrap(),
                        g1,
                        final(self).grid(),
                        region_cells(old(self).spec_shape(), d,
                            resolve(old(self).spec_shape()[axis_of(d)] as int, fixed as int), ra, rb),
                        rank,
                    ))
            },
    {
        match self.check_region(fixed, d, ra, rb) {
            None => Err(WfcError::OutOfRange),
            Some(f) => {
                let was_settled = self.settled;
                let targets = self.narrow_region(restriction, f, d, ra, rb);
                let queue = if was_settled {
                    targets
                } else {
                    let vol = self.cells.len();
                    let mut all: Vec<usize> = Vec::new();
                    let mut k: usize = 0;
                    while k < vol
                        invariant
                            k <= vol,
                            all@.len() == k,
                            forall|q: int| 0 <= q < k ==> #[trigger] all@[q] == q,
                        decreases vol - k,
                    {
                        all.push(k);
                        k = k + 1;
                    }
                    proof {
                        assert forall|c: int| 0 <= c < vol implies #[trigger] all@.contains(c as usize) by {
                            assert(all@[c] == c);
                        }
                    }
                    all
                };
                self.propagate(queue)
            },
        }
    }
}

} // verus!
