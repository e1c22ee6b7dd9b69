use vstd::prelude::*;

verus! {

/// Number of `true` entries.
pub open spec fn count_ones(s: Seq<bool>) -> nat
    decreases s.len(),
{
    if s.len() == 0 {
        0
    } else {
        count_ones(s.drop_last()) + if s.last() { 1nat } else { 0nat }
    }
}

/// Every tile allowed by `a` is allowed by `b`.
pub open spec fn subset(a: Seq<bool>, b: Seq<bool>) -> bool {
    a.len() == b.len() && forall|t: int| 0 <= t < a.len() && #[trigger] a[t] ==> b[t]
}

/// The domain over `n` tiles that allows tile `t` alone.
pub open spec fn single_domain(n: nat, t: int) -> Seq<bool> {
    Seq::new(n, |u: int| u == t)
}

/// The set of tiles still possible at a cell, one flag per tile id.
#[derive(Debug)]
pub struct Domain {
    pub bits: Vec<bool>,
}

impl View for Domain {
    type V = Seq<bool>;

    open spec fn view(&self) -> Seq<bool> {
        self.bits@
    }
}

pub proof fn lemma_count_bounds(s: Seq<bool>)
    ensures
        count_ones(s) <= s.len(),
        count_ones(s) == 0 <==> (forall|t: int| 0 <= t < s.len() ==> !#[trigger] s[t]),
    decreases s.len(),
{
    if s.len() > 0 {
        lemma_count_bounds(s.drop_last());
        if count_ones(s) == 0 {
            assert forall|t: int| 0 <= t < s.len() implies !#[trigger] s[t] by {
                if t < s.len() - 1 {
                    assert(s[t] == s.drop_last()[t]);
                }
            }
        }
        if forall|t: int| 0 <= t < s.len() ==> !#[trigger] s[t] {
            assert forall|t: int| 0 <= t < s.drop_last().len() implies !#[trigger] s.drop_last()[t] by {
                assert(s[t] == s.drop_last()[t]);
            }
        }
    }
}

/// A smaller domain has no more tiles, and strictly fewer when some tile was dropped.
pub proof fn lemma_count_subset(a: Seq<bool>, b: Seq<bool>)
    requires
        subset(a, b),
    ensures
        count_ones(a) <= count_ones(b),
        a != b ==> count_ones(a) < count_ones(b),
    decreases a.len(),
{
    if a.len() > 0 {
        let a2 = a.drop_last();
        let b2 = b.drop_last();
        assert forall|t: int| 0 <= t < a2.len() && #[trigger] a2[t] implies b2[t] by {
            assert(a[t]);
        }
        lemma_count_subset(a2, b2);
        if a != b && a2 == b2 {
            assert(a.last() != b.last()) by {
                if a.last() == b.last() {
                    assert(a =~= b) by {
                        assert forall|t: int| 0 <= t < a.len() implies a[t] == b[t] by {
                            if t < a.len() - 1 {
                                assert(a[t] == a2[t] && b[t] == b2[t]);
                            }
                        }
                    }
                }
            }
            assert(!a.last() ==> b.last() || a.last() == b.last());
            assert(a.last() ==> b.last()) by {
                if a.last() {
                    assert(a[a.len() - 1]);
                }
            }
        }
    } else {
        assert(a =~= b);
    }
}

/// A domain with exactly one tile holds no other.
pub proof fn lemma_count_one_unique(s: Seq<bool>, i: int, j: int)
    requires
        count_ones(s) == 1,
        0 <= i < s.len(),
        0 <= j < s.len(),
        s[i],
        s[j],
    ensures
        i == j,
    decreases s.len(),
{
    let s2 = s.drop_last();
    lemma_count_bounds(s2);
    if i < s.len() - 1 && j < s.len() - 1 {
        assert(s2[i] && s2[j]);
        if s.last() {
            assert(count_ones(s2) == 0);
            assert(!s2[i]);
        } else {
            lemma_count_one_unique(s2, i, j);
        }
    } else if i < s.len() - 1 {
        assert(s2[i]);
        assert(count_ones(s2) == 0);
    } else if j < s.len() - 1 {
        assert(s2[j]);
        assert(count_ones(s2) == 0);
    }
}

/// A domain with one tile has a count of one.
pub proof fn lemma_count_shrink_single(s: Seq<bool>, t: int)
    requires
        0 <= t < s.len(),
        s[t],
        forall|u: int| 0 <= u < s.len() && s[u] ==> u == t,
    ensures
        count_ones(s) == 1,
    decreases s.len(),
{
    let s2 = s.drop_last();
    if t == s.len() - 1 {
        assert forall|u: int| 0 <= u < s2.len() implies !#[trigger] s2[u] by {
            assert(s[u] == s2[u]);
        }
        lemma_count_bounds(s2);
    } else {
        assert(s2[t]);
        assert forall|u: int| 0 <= u < s2.len() && s2[u] implies u == t by {
            assert(s[u]);
        }
        lemma_count_shrink_single(s2, t);
    }
}

proof fn lemma_count_take_step(s: Seq<bool>, i: int)
    requires
        0 <= i < s.len(),
    ensures
        count_ones(s.take(i + 1)) == count_ones(s.take(i)) + if s[i] { 1nat } else { 0nat },
{
    assert(s.take(i + 1).drop_last() =~= s.take(i));
}

impl Domain {
    /// A domain over `n` tiles allowing none of them.
    pub fn empty(n: usize) -> (r: Domain)
        ensures
            r@.len() == n,
            forall|t: int| 0 <= t < n ==> !#[trigger] r@[t],
    {
        let mut bits: Vec<bool> = Vec::new();
        let mut k: usize = 0;
        while k < n
            invariant
                k <= n,
                bits@.len() == k,
                forall|t: int| 0 <= t < k ==> !#[trigger] bits@[t],
            decreases n - k,
        {
            bits.push(false);
            k = k + 1;
        }
        Domain { bits }
    }

    /// A domain over `n` tiles allowing all of them.
    pub fn full(n: usize) -> (r: Domain)
        ensures
            r@.len() == n,
            forall|t: int| 0 <= t < n ==> #[trigger] r@[t],
    {
        let mut bits: Vec<bool> = Vec::new();
        let mut k: usize = 0;
        while k < n
            invariant
                k <= n,
                bits@.len() == k,
                forall|t: int| 0 <= t < k ==> #[trigger] bits@[t],
            decreases n - k,
        {
            bits.push(true);
            k = k + 1;
        }
        Domain { bits }
    }

    /// A domain over `n` tiles allowing exactly tile `t`.
    pub fn single(n: usize, t: usize) -> (r: Domain)
        requires
            t < n,
        ensures
            r@.len() == n,
            forall|u: int| 0 <= u < n ==> #[trigger] r@[u] == (u == t),
    {
        let mut r = Domain::empty(n);
        r.bits.set(t, true);
        r
    }

    /// A domain with the given flags.
    pub fn from_flags(bits: Vec<bool>) -> (r: Domain)
        ensures
            r@ == bits@,
    {
        Domain { bits }
    }

    /// Number of tile ids the domain ranges over.
    pub fn len(&self) -> (r: usize)
        ensures
            r == self@.len(),
    {
        self.bits.len()
    }

    /// Whether tile `t` is allowed.
    pub fn contains(&self, t: usize) -> (r: bool)
        requires
            t < self@.len(),
        ensures
            r == self@[t as int],
    {
        self.bits[t]
    }

    /// Allow (`v == true`) or forbid tile `t`.
    pub fn set(&mut self, t: usize, v: bool)
        requires
            t < old(self)@.len(),
        ensures
            final(self)@ == old(self)@.update(t as int, v),
    {
        self.bits.set(t, v);
    }

    /// An equal, independently owned domain.
    pub fn copy(&self) -> (r: Domain)
        ensures
            r@ == self@,
    {
        let mut bits: Vec<bool> = Vec::new();
        let mut k: usize = 0;
        while k < self.bits.len()
            invariant
                k <= self@.len(),
                bits@ == self@.take(k as int),
            decreases self@.len() - k,
        {
            bits.push(self.bits[k]);
            k = k + 1;
            assert(bits@ =~= self@.take(k as int));
        }
        assert(self@.take(k as int) =~= self@);
        Domain { bits }
    }

    /// Number of allowed tiles.
    pub fn count(&self) -> (r: usize)
        ensures
            r == count_ones(self@),
    {
        let mut c: usize = 0;
        let mut k: usize = 0;
        while k < self.bits.len()
            invariant
                k <= self@.len(),
                c == count_ones(self@.take(k as int)),
                c <= k,
            decreases self@.len() - k,
        {
            proof {
                lemma_count_take_step(self@, k as int);
                lemma_count_bounds(self@.take(k as int + 1));
            }
            if self.bits[k] {
                c = c + 1;
            }
            k = k + 1;
        }
        assert(self@.take(k as int) =~= self@);
        c
    }

    /// Tiles allowed by both domains.
    pub fn intersect(&self, other: &Domain) -> (r: Domain)
        requires
            self@.len() == other@.len(),
        ensures
            r@.len() == self@.len(),
            forall|t: int| 0 <= t < self@.len() ==> #[trigger] r@[t] == (self@[t] && other@[t]),
    {
        let mut bits: Vec<bool> = Vec::new();
        let mut k: usize = 0;
        while k < self.bits.len()
            invariant
                k <= self@.len(),
                self@.len() == other@.len(),
                bits@.len() == k,
                forall|t: int| 0 <= t < k ==> #[trigger] bits@[t] == (self@[t] && other@[t]),
            decreases self@.len() - k,
        {
            bits.push(self.bits[k] && other.bits[k]);
            k = k + 1;
        }
        Domain { bits }
    }

    /// Tiles allowed by `self` and not by `other`.
    pub fn without(&self, other: &Domain) -> (r: Domain)
        requires
            self@.len() == other@.len(),
        ensures
            r@.len() == self@.len(),
            forall|t: int| 0 <= t < self@.len() ==> #[trigger] r@[t] == (self@[t] && !other@[t]),
    {
        let mut bits: Vec<bool> = Vec::new();
        let mut k: usize = 0;
        while k < self.bits.len()
            invariant
                k <= self@.len(),
                self@.len() == other@.len(),
                bits@.len() == k,
                forall|t: int| 0 <= t < k ==> #[trigger] bits@[t] == (self@[t] && !other@[t]),
            decreases self@.len() - k,
        {
            bits.push(self.bits[k] && !other.bits[k]);
            k = k + 1;
        }
        Domain { bits }
    }

    /// Adds every tile of `other` to `self`.
    pub fn union_with(&mut self, other: &Domain)
        requires
            old(self)@.len() == other@.len(),
        ensures
            final(self)@.len() == old(self)@.len(),
            forall|t: int| 0 <= t < old(self)@.len() ==> #[trigger] final(self)@[t] == (old(self)@[t] || other@[t]),
    {
        let n = self.bits.len();
        let mut k: usize = 0;
        while k < n
            invariant
                k <= n,
                n == old(self)@.len(),
                self@.len() == n,
                other@.len() == n,
                forall|t: int| 0 <= t < k ==> #[trigger] self@[t] == (old(self)@[t] || other@[t]),
                forall|t: int| k <= t < n ==> #[trigger] self@[t] == old(self)@[t],
            decreases n - k,
        {
            if other.bits[k] {
                self.bits.set(k, true);
            }
            k = k + 1;
        }
    }

    /// Whether every tile of `self` is allowed by `other`.
    pub fn is_subset_of(&self, other: &Domain) -> (r: bool)
        requires
            self@.len() == other@.len(),
        ensures
            r == subset(self@, other@),
    {
        let mut k: usize = 0;
        while k < self.bits.len()
            invariant
                k <= self@.len(),
                self@.len() == other@.len(),
                forall|t: int| 0 <= t < k && #[trigger] self@[t] ==> other@[t],
            decreases self@.len() - k,
        {
            if self.bits[k] && !other.bits[k] {
                return false;
            }
            k = k + 1;
        }
        true
    }

    /// The tile id of the `k`-th allowed tile, counting from zero in id order.
    pub fn nth_one(&self, k: usize) -> (r: usize)
        requires
            k < count_ones(self@),
        ensures
            r < self@.len(),
            self@[r as int],
            count_ones(self@.take(r as int)) == k,
    {
        let mut c: usize = 0;
        let mut i: usize = 0;
        proof {
            assert(self@.take(self@.len() as int) =~= self@);
        }
        while i < self.bits.len()
            invariant
                i <= self@.len(),
                c == count_ones(self@.take(i as int)),
                c <= k,
                k < count_ones(self@),
            decreases self@.len() - i,
        {
            proof {
                lemma_count_take_step(self@, i as int);
            }
            if self.bits[i] {
                if c == k {
                    return i;
                }
                c = c + 1;
            }
            i = i + 1;
        }
        proof {
            assert(self@.take(i as int) =~= self@);
        }
        0
    }

    /// The lowest allowed tile id, if any.
    pub fn first_one(&self) -> (r: Option<usize>)
        ensures
            r matches Some(t) ==> t < self@.len() && self@[t as int] && forall|u: int| 0 <= u < t ==> !#[trigger] self@[u],
            r is None ==> forall|u: int| 0 <= u < self@.len() ==> !#[trigger] self@[u],
    {
        let mut i: usize = 0;
        while i < self.bits.len()
            invariant
                i <= self@.len(),
                forall|u: int| 0 <= u < i ==> !#[trigger] self@[u],
            decreases self@.len() - i,
        {
            if self.bits[i] {
                return Some(i);
            }
            i = i + 1;
        }
        None
    }
}

} // verus!
