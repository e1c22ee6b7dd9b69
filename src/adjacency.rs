use vstd::prelude::*;
use crate::direction::Direction;
use crate::domain::Domain;

verus! {


/// Tile `t` is allowed next to some tile among the first `lim` of `dom`, in direction `d`.
pub open spec fn allowed_upto(adj: Adjacency, dom: Seq<bool>, d: Direction, lim: int, t: int) -> bool {
    exists|s: int| 0 <= s < lim && dom[s] && #[trigger] adj.compat(d, s, t)
}

/// Tile `t` is allowed next to some tile of `dom`, in direction `d`.
pub open spec fn allowed(adj: Adjacency, dom: Seq<bool>, d: Direction, t: int) -> bool {
    allowed_upto(adj, dom, d, dom.len() as int, t)
}

/// For each direction and each tile, the tiles allowed at the neighbor cell
/// in that direction.
pub struct Adjacency {
    px: Vec<Domain>,
    nx: Vec<Domain>,
    py: Vec<Domain>,
    ny: Vec<Domain>,
    pz: Vec<Domain>,
    nz: Vec<Domain>,
    n: usize,
}

impl Adjacency {
    pub closed spec fn tiles(&self) -> nat {
        self.n as nat
    }

    pub closed spec fn spec_row(&self, d: Direction) -> Seq<Domain> {
        match d {
            Direction::PosX => self.px@,
            Direction::NegX => self.nx@,
            Direction::PosY => self.py@,
            Direction::NegY => self.ny@,
            Direction::PosZ => self.pz@,
            Direction::NegZ => self.nz@,
        }
    }

    /// Whether tile `b` may sit next to tile `a` in direction `d`.
    pub open spec fn compat(&self, d: Direction, a: int, b: int) -> bool {
        self.spec_row(d)[a]@[b]
    }

    pub open spec fn wf(&self) -> bool {
        forall|d: Direction|
            #![trigger self.spec_row(d)]
            self.spec_row(d).len() == self.tiles() && forall|a: int|
                0 <= a < self.tiles() ==> (#[trigger] self.spec_row(d)[a])@.len() == self.tiles()
    }

    /// The relation over `n` tiles that allows nothing.
    pub fn empty(n: usize) -> (r: Adjacency)
        ensures
            r.wf(),
            r.tiles() == n,
            forall|d: Direction, a: int, b: int| 0 <= a < n && 0 <= b < n ==> !#[trigger] r.compat(d, a, b),
    {
        let r = Adjacency {
            px: Self::empty_row(n),
            nx: Self::empty_row(n),
            py: Self::empty_row(n),
            ny: Self::empty_row(n),
            pz: Self::empty_row(n),
            nz: Self::empty_row(n),
            n,
        };
        r
    }

    fn empty_row(n: usize) -> (r: Vec<Domain>)
        ensures
            r@.len() == n,
            forall|a: int| 0 <= a < n ==> (#[trigger] r@[a])@.len() == n,
            forall|a: int, b: int| 0 <= a < n && 0 <= b < n ==> !#[trigger] r@[a]@[b],
    {
        let mut row: Vec<Domain> = Vec::new();
        let mut k: usize = 0;
        while k < n
            invariant
                k <= n,
                row@.len() == k,
                forall|a: int| 0 <= a < k ==> (#[trigger] row@[a])@.len() == n,
                forall|a: int, b: int| 0 <= a < k && 0 <= b < n ==> !#[trigger] row@[a]@[b],
            decreases n - k,
        {
            row.push(Domain::empty(n));
            k = k + 1;
        }
        row
    }

    pub fn tile_count(&self) -> (r: usize)
        ensures
            r == self.tiles(),
    {
        self.n
    }

    /// The tiles allowed next to tile `a` in direction `d`.
    pub fn row_entry(&self, d: Direction, a: usize) -> (r: &Domain)
        requires
            self.wf(),
            a < self.tiles(),
        ensures
            r@.len() == self.tiles(),
            forall|b: int| 0 <= b < self.tiles() ==> #[trigger] r@[b] == self.compat(d, a as int, b),
    {
        let row = match d {
            Direction::PosX => &self.px,
            Direction::NegX => &self.nx,
            Direction::PosY => &self.py,
            Direction::NegY => &self.ny,
            Direction::PosZ => &self.pz,
            Direction::NegZ => &self.nz,
        };
        assert(row@ == self.spec_row(d));
        &row[a]
    }

    /// Records that tile `b` may sit next to tile `a` in direction `d`.
    pub fn allow(&mut self, d: Direction, a: usize, b: usize)
        requires
            old(self).wf(),
            a < old(self).tiles(),
            b < old(self).tiles(),
        ensures
            final(self).wf(),
            final(self).tiles() == old(self).tiles(),
            forall|d2: Direction, a2: int, b2: int|
                0 <= a2 < old(self).tiles() && 0 <= b2 < old(self).tiles() ==> #[trigger] final(self).compat(d2, a2, b2)
                    == (old(self).compat(d2, a2, b2) || (d2 == d && a2 == a && b2 == b)),
    {
        let mut dom = self.row_entry(d, a).copy();
        dom.set(b, true);
        let ghost before = *self;
        let ghost new_entry = dom;
        assert(self.spec_row(d).len() == self.tiles());
        match d {
            Direction::PosX => self.px.set(a, dom),
            Direction::NegX => self.nx.set(a, dom),
            Direction::PosY => self.py.set(a, dom),
            Direction::NegY => self.ny.set(a, dom),
            Direction::PosZ => self.pz.set(a, dom),
            Direction::NegZ => self.nz.set(a, dom),
        }
        assert forall|d2: Direction| #![trigger self.spec_row(d2)] self.spec_row(d2).len() == self.n by {
            assert(before.spec_row(d2).len() == self.n);
        }
        assert forall|d2: Direction, a2: int| 0 <= a2 < self.n implies (#[trigger] self.spec_row(d2)[a2])@.len() == self.n by {
            assert(before.spec_row(d2)[a2]@.len() == self.n);
        }
        assert forall|d2: Direction, a2: int, b2: int|
            0 <= a2 < before.n && 0 <= b2 < before.n implies #[trigger] self.compat(d2, a2, b2)
                == (before.compat(d2, a2, b2) || (d2 == d && a2 == a && b2 == b)) by {
            if d2 == d && a2 == a {
                assert(self.spec_row(d2)[a2] == new_entry);
            } else {
                assert(self.spec_row(d2)[a2] == before.spec_row(d2)[a2]);
            }
        }
    }

    fn copy_row(row: &Vec<Domain>) -> (r: Vec<Domain>)
        ensures
            r@.len() == row@.len(),
            forall|a: int| 0 <= a < row@.len() ==> (#[trigger] r@[a])@ == row@[a]@,
    {
        let mut r: Vec<Domain> = Vec::new();
        let mut k: usize = 0;
        while k < row.len()
            invariant
                k <= row@.len(),
                r@.len() == k,
                forall|a: int| 0 <= a < k ==> (#[trigger] r@[a])@ == row@[a]@,
            decreases row@.len() - k,
        {
            r.push(row[k].copy());
            k = k + 1;
        }
        r
    }

    /// An equal, independently owned relation.
    pub fn copy(&self) -> (r: Adjacency)
        requires
            self.wf(),
        ensures
            r.wf(),
            r.tiles() == self.tiles(),
            forall|d: Direction, a: int, b: int|
                0 <= a < self.tiles() ==> #[trigger] r.compat(d, a, b) == self.compat(d, a, b),
    {
        let r = Adjacency {
            px: Self::copy_row(&self.px),
            nx: Self::copy_row(&self.nx),
            py: Self::copy_row(&self.py),
            ny: Self::copy_row(&self.ny),
            pz: Self::copy_row(&self.pz),
            nz: Self::copy_row(&self.nz),
            n: self.n,
        };
        assert forall|d: Direction| #![trigger r.spec_row(d)] r.spec_row(d).len() == r.tiles() by {
            assert(self.spec_row(d).len() == self.tiles());
        }
        assert forall|d: Direction, a: int| 0 <= a < r.tiles() implies (#[trigger] r.spec_row(d)[a])@.len() == r.tiles() by {
            assert(self.spec_row(d)[a]@.len() == self.tiles());
        }
        assert forall|d: Direction, a: int, b: int|
            0 <= a < self.tiles() implies #[trigger] r.compat(d, a, b) == self.compat(d, a, b) by {
            assert(r.spec_row(d)[a]@ == self.spec_row(d)[a]@);
        }
        r
    }

    /// The tiles allowed at the neighbor in direction `d` of a cell whose domain is `dom`.
    pub fn allowed_from(&self, dom: &Domain, d: Direction) -> (r: Domain)
        requires
            self.wf(),
            dom@.len() == self.tiles(),
        ensures
            r@.len() == self.tiles(),
            forall|t: int| 0 <= t < self.tiles() ==> #[trigger] r@[t] == allowed(*self, dom@, d, t),
    {
        let n = self.n;
        let mut acc = Domain::empty(n);
        let mut s: usize = 0;
        while s < n
            invariant
                n == self.tiles(),
                self.wf(),
                dom@.len() == n,
                s <= n,
                acc@.len() == n,
                forall|t: int| 0 <= t < n ==> #[trigger] acc@[t] == allowed_upto(*self, dom@, d, s as int, t),
            decreases n - s,
        {
            if dom.contains(s) {
                let row = self.row_entry(d, s);
                acc.union_with(row);
            }
            proof {
                assert forall|t: int| 0 <= t < n implies #[trigger] acc@[t] == allowed_upto(*self, dom@, d, s + 1, t) by {
                    if allowed_upto(*self, dom@, d, s + 1, t) && !allowed_upto(*self, dom@, d, s as int, t) {
                        let s2 = choose|s2: int| 0 <= s2 < s + 1 && dom@[s2] && #[trigger] self.compat(d, s2, t);
                        assert(s2 == s);
                    }
                }
            }
            s = s + 1;
        }
        acc
    }
}

} // verus!
