use vstd::prelude::*;
use crate::adjacency::{allowed, Adjacency};
use crate::direction::Direction;
use crate::domain::Domain;
use crate::error::WfcError;
use crate::shape::{neighbor, neighbor_index, valid_shape, volume};

verus! {

/// A tile marker of an example pattern: a semantic group name and a variant
/// number that tells apart tiles of one group.
#[derive(Debug)]
pub struct Marker {
    pub group: String,
    pub variant: u32,
}

impl View for Marker {
    type V = (Seq<char>, u32);

    open spec fn view(&self) -> (Seq<char>, u32) {
        (self.group@, self.variant)
    }
}

impl Marker {
    pub fn new(group: String, variant: u32) -> (r: Marker)
        ensures
            r@ == (group@, variant),
    {
        Marker { group, variant }
    }

    /// Whether both markers name the same tile.
    pub fn same(&self, other: &Marker) -> (r: bool)
        ensures
            r == (self@ == other@),
    {
        self.variant == other.variant && self.group == other.group
    }

    pub fn copy(&self) -> (r: Marker)
        ensures
            r@ == self@,
    {
        Marker { group: self.group.clone(), variant: self.variant }
    }
}

/// An example pattern: a box of markers, flat-indexed as `shape::index_of` says.
#[derive(Debug)]
pub struct Example {
    pub shape: [usize; 3],
    pub cells: Vec<Marker>,
}

pub open spec fn example_ok(x: Example) -> bool {
    valid_shape(x.shape) && x.cells@.len() == volume(x.shape)
}

/// At least one example, each with one marker per cell of its box.
pub open spec fn examples_ok(ex: Seq<Example>) -> bool {
    ex.len() > 0 && forall|e: int| 0 <= e < ex.len() ==> example_ok(#[trigger] ex[e])
}

/// Cell `i` of example `e` holds `ma`, and its neighbor in direction `d` holds `mb`.
pub open spec fn witness(
    ex: Seq<Example>,
    e: int,
    i: int,
    d: Direction,
    ma: (Seq<char>, u32),
    mb: (Seq<char>, u32),
) -> bool {
    &&& 0 <= e < ex.len()
    &&& 0 <= i < ex[e].cells@.len()
    &&& match neighbor(ex[e].shape, i, d, false) {
        Some(j) => 0 <= j < ex[e].cells@.len() && ex[e].cells@[i]@ == ma && ex[e].cells@[j]@ == mb,
        None => false,
    }
}

/// Some example shows `mb` next to `ma` in direction `d`.
pub open spec fn observed(ex: Seq<Example>, d: Direction, ma: (Seq<char>, u32), mb: (Seq<char>, u32)) -> bool {
    exists|e: int, i: int| #[trigger] witness(ex, e, i, d, ma, mb)
}

/// The adjacency learned from the examples: a pair observed in direction `d`,
/// or its mirror observed in the opposite direction.
pub open spec fn learned(ex: Seq<Example>, d: Direction, ma: (Seq<char>, u32), mb: (Seq<char>, u32)) -> bool {
    observed(ex, d, ma, mb) || observed(ex, d.spec_opposite(), mb, ma)
}

/// `observed`, limited to the cells and directions scanned before position `(el, il, kl)`.
pub open spec fn seen_before(
    ex: Seq<Example>,
    el: int,
    il: int,
    kl: int,
    d: Direction,
    ma: (Seq<char>, u32),
    mb: (Seq<char>, u32),
) -> bool {
    exists|e: int, i: int|
        #[trigger] witness(ex, e, i, d, ma, mb) && (e < el || (e == el && (i < il || (i == il && d.index() < kl))))
}

pub open spec fn unique_markers(m: Seq<Marker>) -> bool {
    forall|a: int, b: int| 0 <= a < m.len() && 0 <= b < m.len() && #[trigger] m[a]@ == #[trigger] m[b]@ ==> a == b
}

/// Every marker of the table occurs in some example.
pub open spec fn markers_from(m: Seq<Marker>, ex: Seq<Example>) -> bool {
    forall|k: int|
        0 <= k < m.len() ==> exists|e: int, i: int|
            0 <= e < ex.len() && 0 <= i < ex[e].cells@.len() && (#[trigger] ex[e].cells@[i])@ == (#[trigger] m[k])@
}

pub open spec fn adj_matches(adj: Adjacency, m: Seq<Marker>, ex: Seq<Example>, el: int, il: int, kl: int) -> bool {
    forall|d: Direction, a: int, b: int|
        0 <= a < m.len() && 0 <= b < m.len() ==> #[trigger] adj.compat(d, a, b) == (seen_before(ex, el, il, kl, d, m[a]@, m[b]@)
            || seen_before(ex, el, il, kl, d.spec_opposite(), m[b]@, m[a]@))
}

/// The tile vocabulary and the adjacency relation learned from example patterns.
pub struct TileVocabulary {
    markers: Vec<Marker>,
    adjacency: Adjacency,
}

fn find_or_add(markers: &mut Vec<Marker>, m: &Marker) -> (k: usize)
    requires
        unique_markers(old(markers)@),
    ensures
        unique_markers(final(markers)@),
        k < final(markers)@.len(),
        final(markers)@[k as int]@ == m@,
        final(markers)@.len() == old(markers)@.len() || (final(markers)@.len() == old(markers)@.len() + 1 && k == old(markers)@.len()),
        forall|j: int| 0 <= j < old(markers)@.len() ==> #[trigger] final(markers)@[j] == old(markers)@[j],
{
    let mut k: usize = 0;
    while k < markers.len()
        invariant
            k <= markers@.len(),
            markers@ == old(markers)@,
            unique_markers(old(markers)@),
            forall|j: int| 0 <= j < k ==> (#[trigger] markers@[j])@ != m@,
        decreases markers@.len() - k,
    {
        if markers[k].same(m) {
            return k;
        }
        k = k + 1;
    }
    markers.push(m.copy());
    k
}


/// Gives each distinct marker of the examples a tile id, in order of first
/// appearance, and returns the table and each example's cells as tile ids.
fn discover(examples: &Vec<Example>) -> (r: (Vec<Marker>, Vec<Vec<usize>>))
    ensures
        unique_markers(r.0@),
        markers_from(r.0@, examples@),
        r.1@.len() == examples@.len(),
        forall|e: int| 0 <= e < examples@.len() ==> (#[trigger] r.1@[e])@.len() == examples@[e].cells@.len(),
        forall|e: int, i: int|
            0 <= e < examples@.len() && 0 <= i < examples@[e].cells@.len() ==> #[trigger] r.1@[e]@[i] < r.0@.len()
                && r.0@[r.1@[e]@[i] as int]@ == examples@[e].cells@[i]@,
{
    let mut markers: Vec<Marker> = Vec::new();
    let mut ids: Vec<Vec<usize>> = Vec::new();
    let mut e: usize = 0;
    while e < examples.len()
        invariant
            e <= examples@.len(),
            unique_markers(markers@),
            markers_from(markers@, examples@),
            ids@.len() == e,
            forall|e2: int| 0 <= e2 < e ==> (#[trigger] ids@[e2])@.len() == examples@[e2].cells@.len(),
            forall|e2: int, i: int|
                0 <= e2 < e && 0 <= i < examples@[e2].cells@.len() ==> #[trigger] ids@[e2]@[i] < markers@.len()
                    && markers@[ids@[e2]@[i] as int]@ == examples@[e2].cells@[i]@,
        decreases examples@.len() - e,
    {
        let cells = &examples[e].cells;
        let mut row: Vec<usize> = Vec::new();
        let mut i: usize = 0;
        while i < cells.len()
            invariant
                e < examples@.len(),
                cells@ == examples@[e as int].cells@,
                i <= cells@.len(),
                unique_markers(markers@),
                markers_from(markers@, examples@),
                ids@.len() == e,
                row@.len() == i,
                forall|e2: int| 0 <= e2 < e ==> (#[trigger] ids@[e2])@.len() == examples@[e2].cells@.len(),
                forall|e2: int, i2: int|
                    0 <= e2 < e && 0 <= i2 < examples@[e2].cells@.len() ==> #[trigger] ids@[e2]@[i2] < markers@.len()
                        && markers@[ids@[e2]@[i2] as int]@ == examples@[e2].cells@[i2]@,
                forall|i2: int| 0 <= i2 < i ==> #[trigger] row@[i2] < markers@.len() && markers@[row@[i2] as int]@ == cells@[i2]@,
            decreases cells@.len() - i,
        {
            let ghost before = markers@;
            let k = find_or_add(&mut markers, &cells[i]);
            proof {
                assert forall|k2: int| 0 <= k2 < markers@.len() implies exists|e3: int, i3: int|
                    0 <= e3 < examples@.len() && 0 <= i3 < examples@[e3].cells@.len()
                        && (#[trigger] examples@[e3].cells@[i3])@ == (#[trigger] markers@[k2])@ by {
                    if k2 < before.len() {
                        assert(markers@[k2] == before[k2]);
                    } else {
                        assert(examples@[e as int].cells@[i as int]@ == markers@[k2]@);
                    }
                }
            }
            row.push(k);
            i = i + 1;
        }
        ids.push(row);
        e = e + 1;
    }
    (markers, ids)
}


proof fn lemma_seen_next_cell(ex: Seq<Example>, e: int, i: int)
    ensures
        forall|d: Direction, ma: (Seq<char>, u32), mb: (Seq<char>, u32)|
            #[trigger] seen_before(ex, e, i + 1, 0, d, ma, mb) == seen_before(ex, e, i, 6, d, ma, mb),
{
    assert forall|d: Direction, ma: (Seq<char>, u32), mb: (Seq<char>, u32)|
        #[trigger] seen_before(ex, e, i + 1, 0, d, ma, mb) == seen_before(ex, e, i, 6, d, ma, mb) by {
        assert(0 <= d.index() < 6);
    }
}

proof fn lemma_seen_next_example(ex: Seq<Example>, e: int)
    requires
        0 <= e < ex.len(),
    ensures
        forall|d: Direction, ma: (Seq<char>, u32), mb: (Seq<char>, u32)|
            #[trigger] seen_before(ex, e + 1, 0, 0, d, ma, mb) == seen_before(ex, e, ex[e].cells@.len() as int, 0, d, ma, mb),
{
}

proof fn lemma_seen_all(ex: Seq<Example>)
    ensures
        forall|d: Direction, ma: (Seq<char>, u32), mb: (Seq<char>, u32)|
            #[trigger] seen_before(ex, ex.len() as int, 0, 0, d, ma, mb) == observed(ex, d, ma, mb),
{
}

/// Records, for every cell pair of every example, the pair in its direction
/// and the mirrored pair in the opposite direction.
fn learn(examples: &Vec<Example>, markers: &Vec<Marker>, ids: &Vec<Vec<usize>>) -> (adj: Adjacency)
    requires
        examples_ok(examples@),
        unique_markers(markers@),
        ids@.len() == examples@.len(),
        forall|e: int| 0 <= e < examples@.len() ==> (#[trigger] ids@[e])@.len() == examples@[e].cells@.len(),
        forall|e: int, i: int|
            0 <= e < examples@.len() && 0 <= i < examples@[e].cells@.len() ==> #[trigger] ids@[e]@[i] < markers@.len()
                && markers@[ids@[e]@[i] as int]@ == examples@[e].cells@[i]@,
    ensures
        adj.wf(),
        adj.tiles() == markers@.len(),
        adj_matches(adj, markers@, examples@, examples@.len() as int, 0, 0),
{
    let n = markers.len();
    let mut adj = Adjacency::empty(n);
    let ghost ex = examples@;
    let ghost m = markers@;
    let mut e: usize = 0;
    while e < examples.len()
        invariant
            e <= ex.len(),
            ex == examples@,
            examples_ok(ex),
            m == markers@,
            ids@.len() == examples@.len(),
            forall|e2: int| 0 <= e2 < examples@.len() ==> (#[trigger] ids@[e2])@.len() == examples@[e2].cells@.len(),
            forall|e2: int, i2: int|
                0 <= e2 < examples@.len() && 0 <= i2 < examples@[e2].cells@.len() ==> #[trigger] ids@[e2]@[i2] < markers@.len()
                    && markers@[ids@[e2]@[i2] as int]@ == examples@[e2].cells@[i2]@,
            unique_markers(m),
            n == m.len(),
            adj.wf(),
            adj.tiles() == n,
            adj_matches(adj, m, ex, e as int, 0, 0),
        decreases ex.len() - e,
    {
        let shape = examples[e].shape;
        let len = examples[e].cells.len();
        assert(example_ok(ex[e as int]));
        let mut i: usize = 0;
        while i < len
            invariant
                e < ex.len(),
                ex == examples@,
                m == markers@,
                ids@.len() == examples@.len(),
                forall|e2: int| 0 <= e2 < examples@.len() ==> (#[trigger] ids@[e2])@.len() == examples@[e2].cells@.len(),
                forall|e2: int, i2: int|
                    0 <= e2 < examples@.len() && 0 <= i2 < examples@[e2].cells@.len() ==> #[trigger] ids@[e2]@[i2] < markers@.len()
                        && markers@[ids@[e2]@[i2] as int]@ == examples@[e2].cells@[i2]@,
                unique_markers(m),
                n == m.len(),
                shape == ex[e as int].shape,
                len == ex[e as int].cells@.len(),
                len == volume(shape),
                valid_shape(shape),
                i <= len,
                adj.wf(),
                adj.tiles() == n,
                adj_matches(adj, m, ex, e as int, i as int, 0),
            decreases len - i,
        {
            let mut k: usize = 0;
            while k < 6
                invariant
                    e < ex.len(),
                    ex == examples@,
                    m == markers@,
                    ids@.len() == examples@.len(),
                    forall|e2: int| 0 <= e2 < examples@.len() ==> (#[trigger] ids@[e2])@.len() == examples@[e2].cells@.len(),
                    forall|e2: int, i2: int|
                        0 <= e2 < examples@.len() && 0 <= i2 < examples@[e2].cells@.len() ==> #[trigger] ids@[e2]@[i2] < markers@.len()
                            && markers@[ids@[e2]@[i2] as int]@ == examples@[e2].cells@[i2]@,
                    unique_markers(m),
                    n == m.len(),
                    shape == ex[e as int].shape,
                    len == ex[e as int].cells@.len(),
                    len == volume(shape),
                    valid_shape(shape),
                    i < len,
                    k <= 6,
                    adj.wf(),
                    adj.tiles() == n,
                    adj_matches(adj, m, ex, e as int, i as int, k as int),
                decreases 6 - k,
            {
                let d = Direction::from_index(k);
                let ghost before = adj;
                match neighbor_index(shape, i, d, false) {
                    Some(j) => {
                        let a = ids[e][i];
                        let b = ids[e][j];
                        adj.allow(d, a, b);
                        adj.allow(d.opposite(), b, a);
                        proof {
                            assert(witness(ex, e as int, i as int, d, m[a as int]@, m[b as int]@));
                            assert forall|d2: Direction, a2: int, b2: int|
                                0 <= a2 < n && 0 <= b2 < n implies #[trigger] adj.compat(d2, a2, b2) == (
                                seen_before(ex, e as int, i as int, k + 1, d2, m[a2]@, m[b2]@)
                                    || seen_before(ex, e as int, i as int, k + 1, d2.spec_opposite(), m[b2]@, m[a2]@)) by {
                                let s1 = seen_before(ex, e as int, i as int, k + 1, d2, m[a2]@, m[b2]@);
                                let s2 = seen_before(ex, e as int, i as int, k + 1, d2.spec_opposite(), m[b2]@, m[a2]@);
                                if d2 == d && a2 == a && b2 == b {
                                    assert(s1);
                                } else if d2 == d.spec_opposite() && a2 == b && b2 == a {
                                    assert(d2.spec_opposite() == d);
                                    assert(s2);
                                } else {
                                    assert(adj.compat(d2, a2, b2) == before.compat(d2, a2, b2));
                                    if s1 && !seen_before(ex, e as int, i as int, k as int, d2, m[a2]@, m[b2]@) {
                                        let (e3, i3) = choose|e3: int, i3: int|
                                            #[trigger] witness(ex, e3, i3, d2, m[a2]@, m[b2]@) && (e3 < e || (e3 == e && (i3 < i || (i3 == i && d2.index() < k + 1))));
                                        assert(e3 == e && i3 == i && d2.index() == k);
                                        assert(d2 == d);
                                        assert(m[a2]@ == m[a as int]@);
                                        assert(m[b2]@ == m[b as int]@);
                                    }
                                    if s2 && !seen_before(ex, e as int, i as int, k as int, d2.spec_opposite(), m[b2]@, m[a2]@) {
                                        let (e3, i3) = choose|e3: int, i3: int|
                                            #[trigger] witness(ex, e3, i3, d2.spec_opposite(), m[b2]@, m[a2]@) && (e3 < e || (e3 == e && (i3 < i || (i3 == i && d2.spec_opposite().index() < k + 1))));
                                        assert(e3 == e && i3 == i && d2.spec_opposite().index() == k);
                                        assert(d2.spec_opposite() == d);
                                        assert(d2 == d.spec_opposite());
                                        assert(m[b2]@ == m[a as int]@);
                                        assert(m[a2]@ == m[b as int]@);
                                    }
                                }
                            }
                        }
                    },
                    None => {
                        proof {
                            assert forall|d2: Direction, a2: int, b2: int|
                                0 <= a2 < n && 0 <= b2 < n implies #[trigger] adj.compat(d2, a2, b2) == (
                                seen_before(ex, e as int, i as int, k + 1, d2, m[a2]@, m[b2]@)
                                    || seen_before(ex, e as int, i as int, k + 1, d2.spec_opposite(), m[b2]@, m[a2]@)) by {
                                let s1 = seen_before(ex, e as int, i as int, k + 1, d2, m[a2]@, m[b2]@);
                                let s2 = seen_before(ex, e as int, i as int, k + 1, d2.spec_opposite(), m[b2]@, m[a2]@);
                                if s1 && !seen_before(ex, e as int, i as int, k as int, d2, m[a2]@, m[b2]@) {
                                    let (e3, i3) = choose|e3: int, i3: int|
                                        #[trigger] witness(ex, e3, i3, d2, m[a2]@, m[b2]@) && (e3 < e || (e3 == e && (i3 < i || (i3 == i && d2.index() < k + 1))));
                                    assert(e3 == e && i3 == i && d2.index() == k);
                                    assert(d2 == d);
                                }
                                if s2 && !seen_before(ex, e as int, i as int, k as int, d2.spec_opposite(), m[b2]@, m[a2]@) {
                                    let (e3, i3) = choose|e3: int, i3: int|
                                        #[trigger] witness(ex, e3, i3, d2.spec_opposite(), m[b2]@, m[a2]@) && (e3 < e || (e3 == e && (i3 < i || (i3 == i && d2.spec_opposite().index() < k + 1))));
                                    assert(e3 == e && i3 == i && d2.spec_opposite().index() == k);
                                    assert(d2.spec_opposite() == d);
                                }
                            }
                        }
                    },
                }
                k = k + 1;
            }
            proof {
                lemma_seen_next_cell(ex, e as int, i as int);
            }
            i = i + 1;
        }
        proof {
            lemma_seen_next_example(ex, e as int);
        }
        e = e + 1;
    }
    proof {
        lemma_seen_all(ex);
    }
    adj
}


/// Whether every example has one marker per cell of a box numbered by `usize`.
fn check_examples(examples: &Vec<Example>) -> (r: bool)
    ensures
        r == examples_ok(examples@),
{
    if examples.len() == 0 {
        return false;
    }
    let mut e: usize = 0;
    while e < examples.len()
        invariant
            e <= examples@.len(),
            forall|e2: int| 0 <= e2 < e ==> example_ok(#[trigger] examples@[e2]),
        decreases examples@.len() - e,
    {
        let s = examples[e].shape;
        let hd = s[1].checked_mul(s[2]);
        match hd {
            None => {
                return false;
            },
            Some(hd) => match s[0].checked_mul(hd) {
                None => {
                    proof {
                        assert(s[0] * hd == s[0] * s[1] * s[2]) by (nonlinear_arith)
                            requires hd == s[1] * s[2];
                    }
                    return false;
                },
                Some(v) => {
                    proof {
                        assert(s[0] * hd == s[0] * s[1] * s[2]) by (nonlinear_arith)
                            requires hd == s[1] * s[2];
                    }
                    if v != examples[e].cells.len() {
                        return false;
                    }
                },
            },
        }
        e = e + 1;
    }
    true
}

impl TileVocabulary {
    pub closed spec fn marker_seq(&self) -> Seq<Marker> {
        self.markers@
    }

    pub closed spec fn adj(&self) -> Adjacency {
        self.adjacency
    }

    /// Number of tile ids.
    pub open spec fn tiles(&self) -> nat {
        self.marker_seq().len()
    }

    /// The marker of tile `t`.
    pub open spec fn marker(&self, t: int) -> (Seq<char>, u32) {
        self.marker_seq()[t]@
    }

    /// Whether tile `b` may occupy the neighbor cell of tile `a` in direction `d`.
    pub open spec fn compat(&self, d: Direction, a: int, b: int) -> bool {
        self.adj().compat(d, a, b)
    }

    pub open spec fn wf(&self) -> bool {
        &&& self.adj().wf()
        &&& self.adj().tiles() == self.tiles()
        &&& unique_markers(self.marker_seq())
    }

    /// Some tile belongs to group `g`.
    pub open spec fn known_group(&self, g: Seq<char>) -> bool {
        exists|u: int| 0 <= u < self.tiles() && #[trigger] self.marker(u).0 == g
    }

    /// The tiles of group `g`.
    pub open spec fn group_domain(&self, g: Seq<char>) -> Seq<bool> {
        Seq::new(self.tiles(), |t: int| self.marker(t).0 == g)
    }

    /// Some tile has marker `m`.
    pub open spec fn has_tile(&self, m: (Seq<char>, u32)) -> bool {
        exists|t: int| 0 <= t < self.tiles() && #[trigger] self.marker(t) == m
    }

    /// The vocabulary is the set of markers of `ex`, and the adjacency is what `ex` shows.
    pub open spec fn learned_from(&self, ex: Seq<Example>) -> bool {
        &&& markers_from(self.marker_seq(), ex)
        &&& forall|e: int, i: int|
            0 <= e < ex.len() && 0 <= i < ex[e].cells@.len() ==> self.has_tile(#[trigger] ex[e].cells@[i]@)
        &&& forall|d: Direction, a: int, b: int|
            0 <= a < self.tiles() && 0 <= b < self.tiles() ==> #[trigger] self.compat(d, a, b) == learned(ex, d, self.marker(a), self.marker(b))
    }

    /// Builds the vocabulary and adjacency relation from example patterns;
    /// `DataError` exactly when there is no example or one is malformed.
    pub fn new(examples: &Vec<Example>) -> (r: Result<TileVocabulary, WfcError>)
        ensures
            r is Ok <==> examples_ok(examples@),
            r matches Err(err) ==> err == WfcError::DataError,
            r matches Ok(v) ==> v.wf() && v.learned_from(examples@),
    {
        if !check_examples(examples) {
            return Err(WfcError::DataError);
        }
        let (markers, ids) = discover(examples);
        let adjacency = learn(examples, &markers, &ids);
        let v = TileVocabulary { markers, adjacency };
        proof {
            lemma_seen_all(examples@);
            assert forall|e: int, i: int|
                0 <= e < examples@.len() && 0 <= i < examples@[e].cells@.len() implies v.has_tile(#[trigger] examples@[e].cells@[i]@) by {
                let t = ids@[e]@[i] as int;
                assert(0 <= t < v.tiles());
                assert(v.marker(t) == examples@[e].cells@[i]@);
            }
            assert forall|d: Direction, a: int, b: int|
                0 <= a < v.tiles() && 0 <= b < v.tiles() implies #[trigger] v.compat(d, a, b) == learned(
                examples@,
                d,
                v.marker(a),
                v.marker(b),
            ) by {
                assert(v.adj().compat(d, a, b) == adjacency.compat(d, a, b));
            }
            assert(v.wf());
            assert(markers_from(v.marker_seq(), examples@));
            assert(v.learned_from(examples@));
        }
        Ok(v)
    }

    /// Number of tile ids.
    pub fn tile_count(&self) -> (r: usize)
        requires
            self.wf(),
        ensures
            r == self.tiles(),
    {
        self.markers.len()
    }

    /// The domain with every tile id set.
    pub fn bit_mask(&self) -> (r: Domain)
        ensures
            r@.len() == self.tiles(),
            forall|t: int| 0 <= t < self.tiles() ==> #[trigger] r@[t],
    {
        Domain::full(self.markers.len())
    }

    /// The tiles whose group is `group`; `UnknownGroup` when there is none.
    pub fn asset_bits(&self, group: &String) -> (r: Result<Domain, WfcError>)
        ensures
            r is Ok <==> self.known_group(group@),
            r matches Err(err) ==> err == WfcError::UnknownGroup,
            r matches Ok(dom) ==> dom@ == self.group_domain(group@),
    {
        let n = self.markers.len();
        let mut dom = Domain::empty(n);
        let mut found = false;
        let mut t: usize = 0;
        while t < n
            invariant
                n == self.tiles(),
                t <= n,
                dom@.len() == n,
                forall|u: int| 0 <= u < t ==> #[trigger] dom@[u] == (self.marker(u).0 == group@),
                forall|u: int| t <= u < n ==> !#[trigger] dom@[u],
                found <==> exists|u: int| 0 <= u < t && #[trigger] self.marker(u).0 == group@,
            decreases n - t,
        {
            let ghost was_found = found;
            if self.markers[t].group == *group {
                dom.set(t, true);
                found = true;
                assert(self.marker(t as int).0 == group@);
            }
            proof {
                if was_found {
                    let u = choose|u: int| 0 <= u < t && #[trigger] self.marker(u).0 == group@;
                    assert(0 <= u < t + 1 && self.marker(u).0 == group@);
                }
                if found {
                    assert(exists|u: int| 0 <= u < t + 1 && #[trigger] self.marker(u).0 == group@);
                }
            }
            t = t + 1;
        }
        if found {
            assert(dom@ =~= self.group_domain(group@));
            Ok(dom)
        } else {
            Err(WfcError::UnknownGroup)
        }
    }

    /// The group name of tile `id`; `OutOfRange` when there is no such tile.
    pub fn get_asset_name(&self, id: usize) -> (r: Result<String, WfcError>)
        ensures
            r is Ok <==> id < self.tiles(),
            r matches Err(err) ==> err == WfcError::OutOfRange,
            r matches Ok(s) ==> s@ == self.marker(id as int).0,
    {
        if id < self.markers.len() {
            Ok(self.markers[id].group.clone())
        } else {
            Err(WfcError::OutOfRange)
        }
    }

    /// The variant number of tile `id`; `OutOfRange` when there is no such tile.
    pub fn get_variant(&self, id: usize) -> (r: Result<u32, WfcError>)
        ensures
            r is Ok <==> id < self.tiles(),
            r matches Err(err) ==> err == WfcError::OutOfRange,
            r matches Ok(v) ==> v == self.marker(id as int).1,
    {
        if id < self.markers.len() {
            Ok(self.markers[id].variant)
        } else {
            Err(WfcError::OutOfRange)
        }
    }

    /// The tiles allowed at the neighbor cell of tile `tile` in direction `d`.
    pub fn compatible(&self, tile: usize, d: Direction) -> (r: Result<Domain, WfcError>)
        requires
            self.wf(),
        ensures
            r is Ok <==> tile < self.tiles(),
            r matches Err(err) ==> err == WfcError::OutOfRange,
            r matches Ok(dom) ==> dom@.len() == self.tiles() && forall|b: int|
                0 <= b < self.tiles() ==> #[trigger] dom@[b] == self.compat(d, tile as int, b),
    {
        if tile < self.markers.len() {
            Ok(self.adjacency.row_entry(d, tile).copy())
        } else {
            Err(WfcError::OutOfRange)
        }
    }

    /// The tiles allowed at the neighbor in direction `d` of a cell that may
    /// hold any tile of `dom` (the union of `compatible` over `dom`).
    pub fn allowed_next_to(&self, dom: &Domain, d: Direction) -> (r: Domain)
        requires
            self.wf(),
            dom@.len() == self.tiles(),
        ensures
            r@.len() == self.tiles(),
            forall|t: int| 0 <= t < self.tiles() ==> #[trigger] r@[t] == allowed(self.adj(), dom@, d, t),
    {
        self.adjacency.allowed_from(dom, d)
    }

    /// The relation itself, for a solver to read.
    pub fn adjacency(&self) -> (r: &Adjacency)
        ensures
            *r == self.adj(),
    {
        &self.adjacency
    }
}

} // verus!
