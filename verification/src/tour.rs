//! Permutation encodings and closed-tour lengths for the travelling-salesman
//! problem: the predicate that an encoding is a permutation of `0..k`, the
//! symmetric table of pairwise distances a tour is scored against, and the
//! laws that a closed tour's length does not change under a cyclic shift or
//! a reversal of the tour.

use vstd::prelude::*;

verus! {

/// Largest supported number of stops of a tour.
pub const MAX_CITIES: usize = 10000;

/// Largest supported single distance.
pub const MAX_EDGE: u32 = 0x7fff_ffff;

/// `s` is a permutation of the indices `0 .. k`: right length, every entry
/// in range, no entry twice, no index left out.
pub open spec fn is_perm(s: Seq<usize>, k: nat) -> bool {
    &&& s.len() == k
    &&& forall|i: int| 0 <= i < s.len() ==> (s[i] as int) < k
    &&& s.no_duplicates()
    &&& forall|v: int| 0 <= v < k ==> s.contains(#[trigger] (v as usize))
}

/// The identity encoding `0, 1, .., k-1`.
pub open spec fn identity_seq(k: nat) -> Seq<usize> {
    Seq::new(k, |i: int| i as usize)
}

pub proof fn lemma_identity_is_perm(k: nat)
    requires
        k <= usize::MAX,
    ensures
        is_perm(identity_seq(k), k),
{
    let s = identity_seq(k);
    assert forall|v: int| 0 <= v < k implies s.contains(#[trigger] (v as usize)) by {
        assert(s[v] == v as usize);
    }
}

/// Pigeonhole: a duplicate-free sequence of values below `k` that contains
/// every value below `k` has length exactly `k`.
pub proof fn lemma_perm_len(s: Seq<usize>, k: nat)
    requires
        k <= usize::MAX,
        forall|i: int| 0 <= i < s.len() ==> (s[i] as int) < k,
        s.no_duplicates(),
        forall|v: int| 0 <= v < k ==> s.contains(#[trigger] (v as usize)),
    ensures
        s.len() == k,
{
    broadcast use vstd::set::group_set_axioms;

    let id = identity_seq(k);
    lemma_identity_is_perm(k);
    assert(s.to_set() =~= id.to_set()) by {
        assert forall|x: usize| s.to_set().contains(x) implies id.to_set().contains(x) by {
            assert(s.contains(x));
            let i = choose|i: int| 0 <= i < s.len() && s[i] == x;
            assert((x as int) < k);
            assert(id[x as int] == x);
            assert(id.contains(x));
        }
        assert forall|x: usize| id.to_set().contains(x) implies s.to_set().contains(x) by {
            assert(id.contains(x));
            let i = choose|i: int| 0 <= i < id.len() && id[i] == x;
            assert((x as int) < k);
            assert(s.contains(x));
        }
    }
    s.unique_seq_to_set();
    id.unique_seq_to_set();
}

/// Sum of a sequence of integers.
pub open spec fn seq_sum(s: Seq<int>) -> int
    decreases s.len(),
{
    if s.len() == 0 {
        0
    } else {
        s[0] + seq_sum(s.drop_first())
    }
}

pub proof fn lemma_seq_sum_push(s: Seq<int>, x: int)
    ensures
        seq_sum(s.push(x)) == seq_sum(s) + x,
    decreases s.len(),
{
    if s.len() == 0 {
        assert(s.push(x).drop_first() =~= Seq::<int>::empty());
        assert(s.push(x)[0] == x);
        assert(seq_sum(Seq::<int>::empty()) == 0);
    } else {
        assert(s.push(x).drop_first() =~= s.drop_first().push(x));
        assert(s.push(x)[0] == s[0]);
        lemma_seq_sum_push(s.drop_first(), x);
    }
}

pub proof fn lemma_seq_sum_concat(a: Seq<int>, b: Seq<int>)
    ensures
        seq_sum(a + b) == seq_sum(a) + seq_sum(b),
    decreases a.len(),
{
    if a.len() == 0 {
        assert(a + b =~= b);
    } else {
        assert((a + b).drop_first() =~= a.drop_first() + b);
        lemma_seq_sum_concat(a.drop_first(), b);
    }
}

pub proof fn lemma_seq_sum_reverse(s: Seq<int>)
    ensures
        seq_sum(s.reverse()) == seq_sum(s),
    decreases s.len(),
{
    if s.len() > 0 {
        assert(s.reverse() =~= s.drop_first().reverse().push(s[0]));
        lemma_seq_sum_push(s.drop_first().reverse(), s[0]);
        lemma_seq_sum_reverse(s.drop_first());
    }
}

/// The same sequence, cyclically shifted left by `r` places.
pub open spec fn rotate<A>(s: Seq<A>, r: int) -> Seq<A> {
    s.skip(r) + s.take(r)
}

pub proof fn lemma_seq_sum_rotate(s: Seq<int>, r: int)
    requires
        0 <= r <= s.len(),
    ensures
        seq_sum(rotate(s, r)) == seq_sum(s),
{
    lemma_seq_sum_concat(s.skip(r), s.take(r));
    lemma_seq_sum_concat(s.take(r), s.skip(r));
    assert(s.take(r) + s.skip(r) =~= s);
}

/// The symmetric table of pairwise distances between the stops of one
/// problem instance, stored row-major. Distances are plain integers; how
/// they are measured (and at what scale) is the caller's concern.
pub struct DistanceTable {
    pub n: usize,
    pub d: Vec<u32>,
}

impl DistanceTable {
    /// Square, bounded and symmetric.
    pub open spec fn wf(self) -> bool {
        &&& self.n <= MAX_CITIES
        &&& self.d@.len() == self.n * self.n
        &&& forall|t: int| 0 <= t < self.d@.len() ==> self.d@[t] <= MAX_EDGE
        &&& forall|i: int, j: int|
            #![trigger self.d@[i * self.n + j]]
            0 <= i < self.n && 0 <= j < self.n ==> self.d@[i * self.n + j] == self.d@[j * self.n
                + i]
    }

    /// Distance from stop `i` to stop `j`.
    pub open spec fn spec_dist(self, i: int, j: int) -> int {
        self.d@[i * self.n + j] as int
    }

    pub proof fn lemma_dist_sym(self, i: int, j: int)
        requires
            self.wf(),
            0 <= i < self.n,
            0 <= j < self.n,
        ensures
            self.spec_dist(i, j) == self.spec_dist(j, i),
    {
    }

    /// Builds a table from a flat row-major matrix, accepting it exactly
    /// when it is a square of the right size with bounded, symmetric
    /// entries.
    pub fn new(n: usize, d: Vec<u32>) -> (r: Option<DistanceTable>)
        ensures
            r matches Some(t) ==> t.wf() && t.n == n && t.d@ == d@,
            r is Some <==> ({
                &&& n <= MAX_CITIES
                &&& d@.len() == n * n
                &&& forall|t: int| 0 <= t < d@.len() ==> d@[t] <= MAX_EDGE
                &&& forall|i: int, j: int|
                    #![trigger d@[i * n + j]]
                    0 <= i < n && 0 <= j < n ==> d@[i * n + j] == d@[j * n + i]
            }),
    {
        if n > MAX_CITIES {
            return None;
        }
        proof {
            assert(n * n <= MAX_CITIES * MAX_CITIES) by (nonlinear_arith)
                requires
                    0 <= n <= MAX_CITIES,
            ;
        }
        if d.len() != n * n {
            return None;
        }
        let mut t: usize = 0;
        while t < d.len()
            invariant
                t <= d@.len(),
                forall|u: int| 0 <= u < t ==> d@[u] <= MAX_EDGE,
            decreases d@.len() - t,
        {
            if d[t] > MAX_EDGE {
                return None;
            }
            t = t + 1;
        }
        let mut i: usize = 0;
        while i < n
            invariant
                i <= n,
                n <= MAX_CITIES,
                d@.len() == n * n,
                n * n <= usize::MAX,
                forall|a: int, b: int|
                    #![trigger d@[a * n + b]]
                    0 <= a < i && 0 <= b < n ==> d@[a * n + b] == d@[b * n + a],
            decreases n - i,
        {
            let mut j: usize = 0;
            while j < n
                invariant
                    i < n,
                    j <= n,
                    n <= MAX_CITIES,
                    d@.len() == n * n,
                    n * n <= usize::MAX,
                    forall|a: int, b: int|
                        #![trigger d@[a * n + b]]
                        0 <= a < i && 0 <= b < n ==> d@[a * n + b] == d@[b * n + a],
                    forall|b: int|
                        #![trigger d@[i as int * n + b]]
                        0 <= b < j ==> d@[i as int * n + b] == d@[b * n + i as int],
                decreases n - j,
            {
                proof {
                    assert(i * n + j < n * n && j * n + i < n * n) by (nonlinear_arith)
                        requires
                            0 <= i < n,
                            0 <= j < n,
                    ;
                }
                if d[i * n + j] != d[j * n + i] {
                    return None;
                }
                j = j + 1;
            }
            i = i + 1;
        }
        Some(DistanceTable { n, d })
    }

    /// Distance lookup.
    pub fn dist(&self, i: usize, j: usize) -> (r: u32)
        requires
            self.wf(),
            i < self.n,
            j < self.n,
        ensures
            r == self.spec_dist(i as int, j as int),
            r <= MAX_EDGE,
    {
        proof {
            assert(i * self.n + j < self.n * self.n && self.n * self.n <= MAX_CITIES
                * MAX_CITIES) by (nonlinear_arith)
                requires
                    0 <= i < self.n,
                    0 <= j < self.n,
                    self.n <= MAX_CITIES,
            ;
            assert(usize::MAX >= 0xffff_ffff);
        }
        self.d[i * self.n + j]
    }

    /// An element-by-element copy of the table.
    pub fn duplicate(&self) -> (r: DistanceTable)
        ensures
            r.n == self.n,
            r.d@ == self.d@,
    {
        DistanceTable { n: self.n, d: crate::util::copy_vec(&self.d) }
    }
}

/// The distances travelled along a closed tour: one edge per stop, the last
/// edge returning from the final stop to the first.
pub open spec fn edge_seq(t: DistanceTable, tour: Seq<usize>) -> Seq<int> {
    Seq::new(
        tour.len(),
        |i: int|
            t.spec_dist(
                tour[i] as int,
                tour[if i + 1 == tour.len() {
                    0int
                } else {
                    i + 1
                }] as int,
            ),
    )
}

/// Length of the closed tour: the sum of all its edges.
pub open spec fn tour_len(t: DistanceTable, tour: Seq<usize>) -> int {
    seq_sum(edge_seq(t, tour))
}

/// Law: a closed tour's length is invariant under a cyclic shift of its
/// encoding — the rotated tour visits the same stops over the same edges.
pub proof fn lemma_tour_len_rotation(t: DistanceTable, tour: Seq<usize>, r: int)
    requires
        t.wf(),
        0 <= r <= tour.len(),
        forall|i: int| 0 <= i < tour.len() ==> (tour[i] as int) < t.n,
    ensures
        tour_len(t, rotate(tour, r)) == tour_len(t, tour),
{
    let k = tour.len() as int;
    let e = edge_seq(t, tour);
    let re = edge_seq(t, rotate(tour, r));
    let m = k - r;
    assert(re =~= rotate(e, r)) by {
        assert forall|i: int| 0 <= i < k implies re[i] == rotate(e, r)[i] by {
            if i < m - 1 {
                assert(re[i] == e[i + r]);
            } else if i == m - 1 {
                assert(re[i] == e[k - 1]);
            } else if i < k - 1 {
                assert(re[i] == e[i - m]);
            } else {
                if r == k {
                    assert(re[i] == e[k - 1]);
                } else {
                    assert(re[i] == e[r - 1]);
                }
            }
        }
    }
    lemma_seq_sum_rotate(e, r);
}

/// Law: with a symmetric distance table, a closed tour's length is
/// invariant under reversing the tour — the reversed tour walks the same
/// cycle of edges in the other direction.
pub proof fn lemma_tour_len_reversal(t: DistanceTable, tour: Seq<usize>)
    requires
        t.wf(),
        forall|i: int| 0 <= i < tour.len() ==> (tour[i] as int) < t.n,
    ensures
        tour_len(t, tour.reverse()) == tour_len(t, tour),
{
    let k = tour.len() as int;
    if k > 0 {
        let e = edge_seq(t, tour);
        let rev_e = e.reverse();
        let re = edge_seq(t, tour.reverse());
        assert(re =~= rotate(rev_e, 1)) by {
            assert forall|i: int| 0 <= i < k implies re[i] == rotate(rev_e, 1)[i] by {
                if i < k - 1 {
                    t.lemma_dist_sym(tour[k - 1 - i] as int, tour[k - 2 - i] as int);
                    assert(re[i] == e[k - 2 - i]);
                    assert(rotate(rev_e, 1)[i] == rev_e[i + 1]);
                } else {
                    t.lemma_dist_sym(tour[0] as int, tour[k - 1] as int);
                    assert(re[i] == e[k - 1]);
                    assert(rotate(rev_e, 1)[i] == rev_e[0]);
                }
            }
        }
        lemma_seq_sum_rotate(rev_e, 1);
        lemma_seq_sum_reverse(e);
    } else {
        assert(tour.reverse() =~= tour);
    }
}

/// The tour length depends only on the table's entries, not on which copy
/// of the table is asked.
pub proof fn lemma_tour_len_same_table(t1: DistanceTable, t2: DistanceTable, tour: Seq<usize>)
    requires
        t1.n == t2.n,
        t1.d@ == t2.d@,
    ensures
        tour_len(t1, tour) == tour_len(t2, tour),
{
    assert(edge_seq(t1, tour) =~= edge_seq(t2, tour));
}

/// A sequence holding the same multiset of entries as a permutation of
/// `0..k` is itself a permutation of `0..k`.
pub proof fn lemma_perm_from_multiset(s1: Seq<usize>, s2: Seq<usize>, k: nat)
    requires
        is_perm(s1, k),
        s2.to_multiset() == s1.to_multiset(),
    ensures
        is_perm(s2, k),
{
    broadcast use vstd::seq_lib::group_to_multiset_ensures;
    broadcast use vstd::multiset::group_multiset_axioms;

    assert(s2.len() == s2.to_multiset().len());
    assert(s1.len() == s1.to_multiset().len());
    assert forall|v: int| 0 <= v < k implies s2.contains(#[trigger] (v as usize)) by {
        assert(s1.contains(v as usize));
        assert(s1.to_multiset().count(v as usize) > 0);
        assert(s2.to_multiset().count(v as usize) > 0);
    }
    assert forall|i: int| 0 <= i < s2.len() implies (s2[i] as int) < k by {
        assert(s2.contains(s2[i]));
        assert(s2.to_multiset().count(s2[i]) > 0);
        assert(s1.to_multiset().count(s2[i]) > 0);
        assert(s1.contains(s2[i]));
        let l = choose|l: int| 0 <= l < s1.len() && s1[l] == s2[i];
        assert((s1[l] as int) < k);
    }
    s1.lemma_multiset_has_no_duplicates();
    s2.lemma_multiset_has_no_duplicates_conv();
}

/// Law: swapping any two positions of a permutation leaves a permutation —
/// the reason a position swap is the safe perturbation for this encoding.
pub proof fn lemma_swap_perm(s: Seq<usize>, k: nat, i: int, j: int)
    requires
        is_perm(s, k),
        0 <= i < s.len(),
        0 <= j < s.len(),
    ensures
        is_perm(s.update(i, s[j]).update(j, s[i]), k),
{
    let s2 = s.update(i, s[j]).update(j, s[i]);
    if i == j {
        assert(s2 =~= s);
    } else {
        assert forall|a: int, b: int|
            0 <= a < s2.len() && 0 <= b < s2.len() && a != b implies s2[a] != s2[b] by {
            if a == i {
                assert(s2[a] == s[j]);
            } else if a == j {
                assert(s2[a] == s[i]);
            } else {
                assert(s2[a] == s[a]);
            }
            if b == i {
                assert(s2[b] == s[j]);
            } else if b == j {
                assert(s2[b] == s[i]);
            } else {
                assert(s2[b] == s[b]);
            }
        }
        assert forall|v: int| 0 <= v < k implies s2.contains(#[trigger] (v as usize)) by {
            assert(s.contains(v as usize));
            let l = choose|l: int| 0 <= l < s.len() && s[l] == v as usize;
            if l == i {
                assert(s2[j] == v as usize);
            } else if l == j {
                assert(s2[i] == v as usize);
            } else {
                assert(s2[l] == v as usize);
            }
        }
    }
}

} // verus!
