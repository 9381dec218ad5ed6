//! The travelling-salesman problem on the evolutionary engine: a genome is
//! a permutation of the stop indices — an order to visit every stop once —
//! and fitness is the length of that closed tour, to be minimized. Every
//! operator of this module preserves the permutation invariant.

use crate::genetic::{Crossover, Fitness, Mutate, Selection, STAGNATION_LIMIT};
use crate::rng::{rand_chance, rand_index, shuffle_indices, weighted_pick, weight_sum};
use crate::tour::{
    edge_seq, identity_seq, is_perm, lemma_identity_is_perm, lemma_perm_from_multiset,
    lemma_perm_len, lemma_seq_sum_push, lemma_swap_perm, lemma_tour_len_same_table, seq_sum,
    tour_len, DistanceTable, MAX_CITIES, MAX_EDGE,
};
use crate::util::{copy_vec, vec_contains};
use vstd::prelude::*;

verus! {

/// One candidate tour, together with the distance table it is scored
/// against.
pub struct Genome {
    pub data: Vec<usize>,
    pub table: DistanceTable,
}

impl Genome {
    /// A genome is well formed when its table is well formed and its
    /// encoding is a permutation of the table's stops.
    pub open spec fn wf(self) -> bool {
        &&& self.table.wf()
        &&& is_perm(self.data@, self.table.n as nat)
    }

    /// The length of this genome's closed tour.
    pub open spec fn spec_fitness(self) -> int {
        tour_len(self.table, self.data@)
    }

    /// A fresh genome: the identity tour, shuffled into a uniformly random
    /// permutation.
    pub fn new(table: &DistanceTable) -> (r: Genome)
        requires
            table.wf(),
        ensures
            r.wf(),
            r.table.n == table.n,
            r.table.d@ == table.d@,
    {
        let n = table.n;
        let mut data: Vec<usize> = Vec::new();
        let mut i: usize = 0;
        while i < n
            invariant
                i <= n,
                data@.len() == i,
                forall|t: int| 0 <= t < i ==> data@[t] == t,
            decreases n - i,
        {
            data.push(i);
            i = i + 1;
        }
        proof {
            assert(data@ =~= identity_seq(n as nat));
            lemma_identity_is_perm(n as nat);
        }
        shuffle_indices(&mut data);
        proof {
            lemma_perm_from_multiset(identity_seq(n as nat), data@, n as nat);
        }
        Genome { data, table: table.duplicate() }
    }

    /// An element-by-element copy: same tour, same table contents.
    pub fn duplicate(&self) -> (r: Genome)
        ensures
            r.data@ == self.data@,
            r.table.n == self.table.n,
            r.table.d@ == self.table.d@,
            r.spec_fitness() == self.spec_fitness(),
            r.wf() == self.wf(),
    {
        let r = Genome { data: copy_vec(&self.data), table: self.table.duplicate() };
        proof {
            lemma_tour_len_same_table(r.table, self.table, self.data@);
        }
        r
    }
}

impl Fitness<u64> for Genome {
    open spec fn fitness_wf(&self) -> bool {
        self.wf()
    }

    /// Sums the distances between consecutive stops of the tour, closing
    /// the cycle with the edge from the last stop back to the first.
    fn fitness(&self) -> (r: u64)
        ensures
            r == self.spec_fitness(),
            r <= MAX_CITIES * MAX_EDGE,
    {
        let k = self.data.len();
        let ghost e = edge_seq(self.table, self.data@);
        let mut acc: u64 = 0;
        let mut i: usize = 0;
        proof {
            assert(e.take(0) =~= Seq::<int>::empty());
        }
        while i < k
            invariant
                self.wf(),
                k == self.data@.len(),
                k == self.table.n,
                k <= MAX_CITIES,
                i <= k,
                e == edge_seq(self.table, self.data@),
                acc == seq_sum(e.take(i as int)),
                acc <= i * MAX_EDGE,
            decreases k - i,
        {
            let from = self.data[i];
            let to = if i + 1 == k {
                self.data[0]
            } else {
                self.data[i + 1]
            };
            let d = self.table.dist(from, to);
            proof {
                assert(e[i as int] == d);
                assert(e.take(i + 1) =~= e.take(i as int).push(e[i as int]));
                lemma_seq_sum_push(e.take(i as int), e[i as int]);
            }
            acc = acc + d as u64;
            i = i + 1;
        }
        proof {
            assert(e.take(k as int) =~= e);
        }
        acc
    }
}

impl Mutate for Genome {
    open spec fn mutate_wf(&self) -> bool {
        self.wf()
    }

    /// Repeatedly picks two distinct uniformly random positions and swaps
    /// their contents with probability `num / den`, until `n` swaps have
    /// happened — swaps are counted as successes, not attempts. Swapping is
    /// the only perturbation used because it preserves the permutation
    /// invariant by construction. A generous attempt budget bounds the
    /// loop; with a positive probability it is never exhausted in practice.
    fn mutate(&mut self, n: usize, num: u32, den: u32)
        ensures
            final(self).table == old(self).table,
            final(self).data@.len() == old(self).data@.len(),
            old(self).data@.len() >= 2 && n == 1 && num == den ==> exists|i: int, j: int|
                0 <= i < old(self).data@.len() && 0 <= j < old(self).data@.len() && i != j
                    && final(self).data@ == old(self).data@.update(i, old(self).data@[j]).update(
                    j,
                    old(self).data@[i],
                ),
    {
        if self.data.len() < 2 {
            return ;
        }
        let len = self.data.len();
        let total: u128 = (n as u128) * 64;
        let mut tries: u128 = 0;
        let mut count: usize = 0;
        while count < n && tries < total
            invariant
                old(self).data@.len() >= 2,
                len == self.data@.len(),
                len == old(self).data@.len(),
                self.table == old(self).table,
                self.wf(),
                count <= n,
                total == n as int * 64,
                1 <= num,
                num <= den,
                num == den ==> count == tries,
                count == 0 ==> self.data@ == old(self).data@,
                count >= 1 && n == 1 ==> exists|i: int, j: int|
                    0 <= i < old(self).data@.len() && 0 <= j < old(self).data@.len() && i != j
                        && self.data@ == old(self).data@.update(i, old(self).data@[j]).update(
                        j,
                        old(self).data@[i],
                    ),
            decreases total - tries,
        {
            let i = rand_index(len);
            let r = rand_index(len - 1);
            let j = if r >= i {
                r + 1
            } else {
                r
            };
            if rand_chance(num, den) {
                let ghost pre = self.data@;
                let a = self.data[i];
                let b = self.data[j];
                self.data.set(i, b);
                self.data.set(j, a);
                proof {
                    lemma_swap_perm(pre, self.table.n as nat, i as int, j as int);
                    assert(self.data@ == pre.update(i as int, pre[j as int]).update(
                        j as int,
                        pre[i as int],
                    ));
                }
                count = count + 1;
            }
            tries = tries + 1;
        }
    }
}

/// Two genomes borrowed together for one crossover-and-mutate step; after
/// the step the two slots hold the children.
pub struct Pair {
    pub a: Genome,
    pub b: Genome,
}

/// Entries that do not yet occur in `prefix`.
pub open spec fn absent_from(prefix: Seq<usize>) -> spec_fn(usize) -> bool {
    |x: usize| !prefix.contains(x)
}

proof fn lemma_filter_no_dup(s: Seq<usize>, p: spec_fn(usize) -> bool)
    requires
        s.no_duplicates(),
    ensures
        s.filter(p).no_duplicates(),
    decreases s.len(),
{
    reveal(Seq::filter);
    if s.len() > 0 {
        let butlast = s.drop_last();
        lemma_filter_no_dup(butlast, p);
        if p(s.last()) {
            if butlast.filter(p).contains(s.last()) {
                butlast.lemma_filter_contains_rev(p, s.last());
                let m = choose|m: int| 0 <= m < butlast.len() && butlast[m] == s.last();
                assert(s[m] == s[s.len() - 1] && m != s.len() - 1);
                assert(false);
            }
            assert forall|a: int, b: int|
                0 <= a < s.filter(p).len() && 0 <= b < s.filter(p).len() && a
                != b implies s.filter(p)[a] != s.filter(p)[b] by {
                let f = butlast.filter(p);
                assert(s.filter(p) == f.push(s.last()));
            }
        }
    }
}

/// The order-crossover fill: the child keeps `pa`'s prefix up to `cut` and
/// fills the remaining slots by scanning `pb` in order, appending exactly
/// the entries not already present — which is what keeps the child a
/// permutation.
fn order_fill(pa: &Vec<usize>, pb: &Vec<usize>, cut: usize) -> (r: Vec<usize>)
    requires
        is_perm(pa@, pa@.len() as nat),
        is_perm(pb@, pa@.len() as nat),
        cut <= pa@.len(),
    ensures
        is_perm(r@, pa@.len() as nat),
        r@ == pa@.take(cut as int) + pb@.filter(absent_from(pa@.take(cut as int))),
{
    proof {
        reveal(Seq::filter);
    }
    let ghost prefix = pa@.take(cut as int);
    let ghost keep = absent_from(prefix);
    let n = pa.len();
    let mut child: Vec<usize> = Vec::new();
    let mut i: usize = 0;
    while i < cut
        invariant
            i <= cut <= pa@.len(),
            child@ =~= pa@.take(i as int),
        decreases cut - i,
    {
        child.push(pa[i]);
        i = i + 1;
    }
    proof {
        assert(pb@.take(0) =~= Seq::<usize>::empty());
        assert(child@ =~= prefix + pb@.take(0).filter(keep));
    }
    let mut j: usize = 0;
    while j < n
        invariant
            j <= n,
            n == pa@.len(),
            n == pb@.len(),
            is_perm(pa@, n as nat),
            is_perm(pb@, n as nat),
            cut <= n,
            prefix == pa@.take(cut as int),
            keep == absent_from(prefix),
            child@ == prefix + pb@.take(j as int).filter(keep),
        decreases n - j,
    {
        proof {
            reveal(Seq::filter);
        }
        let x = pb[j];
        let ghost pc = child@;
        let seen = vec_contains(&child, x);
        proof {
            let s0 = pb@.take(j as int);
            assert(pb@.take(j + 1) =~= s0.push(x));
            assert(s0.push(x).drop_last() =~= s0);
            assert(s0.push(x).last() == x);
            assert(pb@.take(j + 1).filter(keep) == if keep(x) {
                s0.filter(keep).push(x)
            } else {
                s0.filter(keep)
            });
            if seen {
                // x is already in the child: either in the prefix, or among
                // the entries appended from pb[..j] — the latter cannot
                // happen because pb has no duplicate entries.
                if !prefix.contains(x) {
                    assert(pb@.take(j as int).filter(keep).contains(x));
                    let l = choose|l: int|
                        0 <= l < pb@.take(j as int).filter(keep).len() && pb@.take(
                            j as int,
                        ).filter(keep)[l] == x;
                    pb@.take(j as int).lemma_filter_contains_rev(keep, x);
                    assert(pb@.take(j as int).contains(x));
                    let m = choose|m: int| 0 <= m < j && pb@.take(j as int)[m] == x;
                    assert(pb@[m] == x && pb@[j as int] == x && m != j);
                    assert(false);
                }
                assert(!keep(x));
            } else {
                if prefix.contains(x) {
                    let l = choose|l: int| 0 <= l < prefix.len() && prefix[l] == x;
                    assert(child@[l] == x);
                    assert(child@.contains(x));
                    assert(false);
                }
                assert(keep(x));
            }
        }
        if !seen {
            child.push(x);
            proof {
                assert(child@ =~= pc.push(x));
                assert(child@ =~= prefix + pb@.take(j + 1).filter(keep));
            }
        }
        j = j + 1;
    }
    proof {
        assert(pb@.take(n as int) =~= pb@);
        // the child is a permutation: in range, duplicate-free, complete
        assert forall|t: int| 0 <= t < child@.len() implies (child@[t] as int) < n by {
            if t < prefix.len() {
                assert(child@[t] == pa@[t]);
            } else {
                let tail = pb@.filter(keep);
                assert(child@[t] == tail[t - prefix.len()]);
                assert(tail.contains(tail[t - prefix.len()]));
                pb@.lemma_filter_contains_rev(keep, tail[t - prefix.len()]);
                assert(pb@.contains(tail[t - prefix.len()]));
                let l = choose|l: int| 0 <= l < pb@.len() && pb@[l] == tail[t - prefix.len()];
                assert((pb@[l] as int) < n);
            }
        }
        assert forall|a: int, b: int|
            0 <= a < child@.len() && 0 <= b < child@.len() && a != b implies child@[a]
            != child@[b] by {
            let tail = pb@.filter(keep);
            if a < prefix.len() && b < prefix.len() {
                assert(pa@[a] == child@[a] && pa@[b] == child@[b]);
            } else if a < prefix.len() && b >= prefix.len() {
                assert(child@[b] == tail[b - prefix.len()]);
                pb@.lemma_filter_pred(keep, b - prefix.len());
                assert(keep(child@[b]));
                assert(prefix.contains(child@[a]));
            } else if a >= prefix.len() && b < prefix.len() {
                assert(child@[a] == tail[a - prefix.len()]);
                pb@.lemma_filter_pred(keep, a - prefix.len());
                assert(keep(child@[a]));
                assert(prefix.contains(child@[b]));
            } else {
                lemma_filter_no_dup(pb@, keep);
                assert(child@[a] == tail[a - prefix.len()]);
                assert(child@[b] == tail[b - prefix.len()]);
            }
        }
        assert forall|v: int| 0 <= v < n implies child@.contains(#[trigger] (v as usize)) by {
            if prefix.contains(v as usize) {
                let l = choose|l: int| 0 <= l < prefix.len() && prefix[l] == v as usize;
                assert(child@[l] == v as usize);
                assert(child@.contains(v as usize));
            } else {
                assert(pb@.contains(v as usize));
                let m = choose|m: int| 0 <= m < pb@.len() && pb@[m] == v as usize;
                assert(keep(pb@[m]));
                pb@.lemma_filter_contains(keep, m);
                let tail = pb@.filter(keep);
                assert(tail.contains(v as usize));
                let l = choose|l: int| 0 <= l < tail.len() && tail[l] == v as usize;
                assert(child@[prefix.len() + l] == v as usize);
                assert(child@.contains(v as usize));
            }
        }
        lemma_perm_len(child@, n as nat);
    }
    child
}

impl Crossover for Pair {
    open spec fn crossover_wf(&self) -> bool {
        self.a.wf() && self.b.wf() && self.a.table.n == self.b.table.n
    }

    /// Order crossover: one shared random cut point `c`; each child keeps
    /// its first parent's prefix up to `c` and fills the rest by scanning
    /// the other parent in order, taking exactly the entries not already
    /// present. The asymmetric fill is what keeps both children
    /// permutations.
    fn crossover(&mut self)
        ensures
            final(self).a.table == old(self).a.table,
            final(self).b.table == old(self).b.table,
            old(self).a.data@.len() == 0 ==> final(self).a.data@ == old(self).a.data@
                && final(self).b.data@ == old(self).b.data@,
            old(self).a.data@.len() > 0 ==> exists|c: int|
                0 <= c < old(self).a.data@.len() && final(self).a.data@ == old(
                    self,
                ).a.data@.take(c) + old(self).b.data@.filter(
                    absent_from(old(self).a.data@.take(c)),
                ) && final(self).b.data@ == old(self).b.data@.take(c) + old(
                    self,
                ).a.data@.filter(absent_from(old(self).b.data@.take(c))),
    {
        let k = self.a.data.len();
        if k == 0 {
            return ;
        }
        let cut = rand_index(k);
        let na = order_fill(&self.a.data, &self.b.data, cut);
        let nb = order_fill(&self.b.data, &self.a.data, cut);
        self.a.data = na;
        self.b.data = nb;
        proof {
            let c = cut as int;
            assert(final(self).a.data@ == old(self).a.data@.take(c) + old(self).b.data@.filter(
                absent_from(old(self).a.data@.take(c)),
            ));
            assert(final(self).b.data@ == old(self).b.data@.take(c) + old(self).a.data@.filter(
                absent_from(old(self).b.data@.take(c)),
            ));
        }
    }
}

impl Mutate for Pair {
    open spec fn mutate_wf(&self) -> bool {
        self.a.wf() && self.b.wf()
    }

    /// Mutates both children of the pair in one batched step.
    fn mutate(&mut self, n: usize, num: u32, den: u32)
        ensures
            final(self).a.table == old(self).a.table,
            final(self).b.table == old(self).b.table,
            final(self).a.data@.len() == old(self).a.data@.len(),
            final(self).b.data@.len() == old(self).b.data@.len(),
    {
        self.a.mutate(n, num, den);
        self.b.mutate(n, num, den);
    }
}

/// Ranking order of a generation: best (shortest) tour first.
pub open spec fn sorted_asc(s: Seq<Genome>) -> bool {
    forall|i: int, j: int| 0 <= i < j < s.len() ==> s[i].spec_fitness() <= s[j].spec_fitness()
}

/// Every genome of the sequence is well formed.
pub open spec fn all_wf(s: Seq<Genome>) -> bool {
    forall|i: int| 0 <= i < s.len() ==> s[i].wf()
}

/// Sorts a generation by fitness, best (shortest) first, by repeatedly
/// extracting a genome of minimal fitness. The result is a reordering of
/// the input: same multiset of genomes.
fn sort_by_fitness(v: &mut Vec<Genome>)
    requires
        all_wf(old(v)@),
    ensures
        final(v)@.len() == old(v)@.len(),
        final(v)@.to_multiset() == old(v)@.to_multiset(),
        sorted_asc(final(v)@),
        all_wf(final(v)@),
        forall|j: int| 0 <= j < old(v)@.len() ==> final(v)@.contains(old(v)@[j]),
        forall|i: int| 0 <= i < final(v)@.len() ==> old(v)@.contains(final(v)@[i]),
{
    let ghost orig = old(v)@;
    let mut r: Vec<Genome> = Vec::new();
    proof {
        broadcast use vstd::seq_lib::group_to_multiset_ensures;
        broadcast use vstd::multiset::group_multiset_axioms;

        vstd::multiset::lemma_multiset_empty_len(r@.to_multiset());
        assert(r@.to_multiset().add(v@.to_multiset()) =~= orig.to_multiset());
    }
    while v.len() > 0
        invariant
            all_wf(v@),
            all_wf(r@),
            r@.to_multiset().add(v@.to_multiset()) == orig.to_multiset(),
            sorted_asc(r@),
            forall|x: int, y: int|
                0 <= x < r@.len() && 0 <= y < v@.len() ==> r@[x].spec_fitness()
                    <= v@[y].spec_fitness(),
            r@.len() + v@.len() == orig.len(),
        decreases v.len(),
    {
        let mut m: usize = 0;
        let mut best: u64 = v[0].fitness();
        let mut mi: usize = 1;
        while mi < v.len()
            invariant
                all_wf(v@),
                v@.len() > 0,
                m < mi <= v@.len(),
                best == v@[m as int].spec_fitness(),
                forall|t: int|
                    0 <= t < mi ==> v@[t].spec_fitness() >= v@[m as int].spec_fitness(),
            decreases v.len() - mi,
        {
            let f = v[mi].fitness();
            if f < best {
                m = mi;
                best = f;
            }
            mi = mi + 1;
        }
        let ghost pv = v@;
        let ghost pr = r@;
        let g = v.remove(m);
        r.push(g);
        proof {
            broadcast use vstd::seq_lib::group_to_multiset_ensures;
            broadcast use vstd::multiset::group_multiset_axioms;

            pv.remove_ensures(m as int);
            assert(v@.to_multiset() =~= pv.to_multiset().remove(g));
            assert(pv.contains(g));
            assert(pv.to_multiset().count(g) >= 1);
            assert(r@.to_multiset() =~= pr.to_multiset().insert(g));
            assert forall|x: Genome|
                r@.to_multiset().add(v@.to_multiset()).count(x) == orig.to_multiset().count(
                    x,
                ) by {
                assert(pr.to_multiset().add(pv.to_multiset()).count(x) == orig.to_multiset().count(
                    x,
                ));
            }
            assert(r@.to_multiset().add(v@.to_multiset()) =~= orig.to_multiset());
        }
    }
    proof {
        broadcast use vstd::seq_lib::group_to_multiset_ensures;
        broadcast use vstd::multiset::group_multiset_axioms;

        vstd::multiset::lemma_multiset_empty_len(v@.to_multiset());
        assert(v@.to_multiset().len() == 0);
        assert(r@.to_multiset().add(v@.to_multiset()) =~= r@.to_multiset());
        assert(r@.to_multiset() == orig.to_multiset());
        assert forall|j: int| 0 <= j < orig.len() implies r@.contains(orig[j]) by {
            assert(orig.contains(orig[j]));
            assert(orig.to_multiset().count(orig[j]) > 0);
            assert(r@.to_multiset().count(orig[j]) > 0);
        }
        assert forall|i: int| 0 <= i < r@.len() implies orig.contains(r@[i]) by {
            assert(r@.contains(r@[i]));
            assert(r@.to_multiset().count(r@[i]) > 0);
            assert(orig.to_multiset().count(r@[i]) > 0);
        }
    }
    *v = r;
}

/// Largest supported population size.
pub const MAX_POP: usize = 100000;

/// Largest fitness a well-formed tour can have.
pub const MAX_FITNESS: u64 = 21474836470000;

/// Largest tour length of a generation — the fitness of its worst genome
/// (0 for an empty generation).
pub open spec fn max_fitness(s: Seq<Genome>) -> int
    decreases s.len(),
{
    if s.len() == 0 {
        0
    } else if s.len() == 1 {
        s[0].spec_fitness()
    } else if s.last().spec_fitness() > max_fitness(s.drop_last()) {
        s.last().spec_fitness()
    } else {
        max_fitness(s.drop_last())
    }
}

pub proof fn lemma_max_fitness_ge(s: Seq<Genome>, i: int)
    requires
        0 <= i < s.len(),
    ensures
        s[i].spec_fitness() <= max_fitness(s),
    decreases s.len(),
{
    if s.len() > 1 && i < s.len() - 1 {
        lemma_max_fitness_ge(s.drop_last(), i);
    }
}

/// The selection weight of a tour of length `fit` in a generation whose
/// worst tour has length `worst`: the minimization objective inverts the
/// raw fitness, and the `+ 1` floor keeps even the worst genome drawable.
pub open spec fn min_weight(worst: int, fit: int) -> int {
    worst - fit + 1
}

/// Law: for the minimization objective, weighted selection gives a
/// strictly better (shorter) tour a strictly larger weight, and every
/// weight is positive.
pub proof fn lemma_weight_strictly_anti_monotone(worst: int, fa: int, fb: int)
    requires
        fa < fb <= worst,
    ensures
        min_weight(worst, fa) > min_weight(worst, fb) >= 1,
{
}

/// The working set of genomes evolved together, plus the run-level state
/// of the stagnation policy: the best fitness ever observed and the count
/// of generations since it last improved.
pub struct Population {
    pub data: Vec<Genome>,
    pub best: u64,
    pub generation_since_improvement: usize,
}

impl Population {
    /// A population is well formed when it is non-empty but bounded, every
    /// genome is well formed and all genomes share one distance table.
    pub open spec fn wf(self) -> bool {
        &&& 1 <= self.data@.len() <= MAX_POP
        &&& all_wf(self.data@)
        &&& forall|i: int|
            #![trigger self.data@[i]]
            0 <= i < self.data@.len() ==> self.data@[i].table.n == self.data@[0].table.n
                && self.data@[i].table.d@ == self.data@[0].table.d@
    }

    /// A fresh population of `pop_size` random tours over one shared
    /// distance table, with no improvement observed yet.
    pub fn new(pop_size: u32, table: &DistanceTable) -> (r: Population)
        requires
            table.wf(),
            1 <= pop_size <= MAX_POP,
        ensures
            r.wf(),
            r.data@.len() == pop_size,
            r.best == u64::MAX,
            r.generation_since_improvement == 0,
            forall|i: int|
                #![trigger r.data@[i]]
                0 <= i < r.data@.len() ==> r.data@[i].table.n == table.n && r.data@[i].table.d@
                    == table.d@,
    {
        let mut data: Vec<Genome> = Vec::new();
        let mut c: u32 = 0;
        while c < pop_size
            invariant
                c <= pop_size,
                data@.len() == c,
                table.wf(),
                all_wf(data@),
                forall|i: int|
                    #![trigger data@[i]]
                    0 <= i < data@.len() ==> data@[i].table.n == table.n && data@[i].table.d@
                        == table.d@,
            decreases pop_size - c,
        {
            data.push(Genome::new(table));
            c = c + 1;
        }
        Population { data, best: u64::MAX, generation_since_improvement: 0 }
    }

    /// Records the best fitness of the freshly ranked generation: a strict
    /// improvement stores it and resets the stagnation counter to zero; any
    /// other outcome leaves the record and adds exactly one stagnant
    /// generation.
    pub fn note_best(&mut self, fit: u64)
        requires
            old(self).generation_since_improvement < usize::MAX,
        ensures
            final(self).data == old(self).data,
            fit < old(self).best ==> final(self).best == fit
                && final(self).generation_since_improvement == 0,
            fit >= old(self).best ==> final(self).best == old(self).best
                && final(self).generation_since_improvement == old(
                self,
            ).generation_since_improvement + 1,
    {
        if fit < self.best {
            self.best = fit;
            self.generation_since_improvement = 0;
        } else {
            self.generation_since_improvement = self.generation_since_improvement + 1;
        }
    }

    /// Diversification after stagnation: keep only the single best genome,
    /// refill the population with fresh random tours, re-rank it and reset
    /// the stagnation counter. The best tour found so far is never lost.
    pub fn reset_with_best(&mut self)
        requires
            old(self).wf(),
        ensures
            final(self).wf(),
            final(self).data@.len() == old(self).data@.len(),
            final(self).best == old(self).best,
            final(self).generation_since_improvement == 0,
            final(self).data@[0].table.n == old(self).data@[0].table.n,
            final(self).data@[0].table.d@ == old(self).data@[0].table.d@,
            exists|idx: int|
                0 <= idx < final(self).data@.len() && final(self).data@[idx].data@ == old(
                    self,
                ).data@[0].data@,
            final(self).data@[0].spec_fitness() <= old(self).data@[0].spec_fitness(),
            sorted_asc(final(self).data@),
    {
        let len = self.data.len();
        let keep = self.data[0].duplicate();
        let ghost keep0 = keep;
        let mut newdata: Vec<Genome> = Vec::new();
        newdata.push(keep);
        while newdata.len() < len
            invariant
                self.wf(),
                self == old(self),
                len == self.data@.len(),
                1 <= newdata@.len() <= len,
                all_wf(newdata@),
                newdata@[0] == keep0,
                keep0.wf(),
                keep0.data@ == old(self).data@[0].data@,
                keep0.spec_fitness() == old(self).data@[0].spec_fitness(),
                forall|i: int|
                    #![trigger newdata@[i]]
                    0 <= i < newdata@.len() ==> newdata@[i].table.n == old(
                        self,
                    ).data@[0].table.n && newdata@[i].table.d@ == old(self).data@[0].table.d@,
            decreases len - newdata.len(),
        {
            newdata.push(Genome::new(&self.data[0].table));
        }
        let ghost pre = newdata@;
        sort_by_fitness(&mut newdata);
        proof {
            assert(pre.contains(keep0));
            assert(newdata@.contains(keep0));
            let kidx = choose|kidx: int| 0 <= kidx < newdata@.len() && newdata@[kidx] == keep0;
            assert(newdata@[0].spec_fitness() <= newdata@[kidx].spec_fitness());
            assert forall|t: int|
                0 <= t < newdata@.len() implies #[trigger] newdata@[t].table.n == old(
                self,
            ).data@[0].table.n && newdata@[t].table.d@ == old(self).data@[0].table.d@ by {
                assert(pre.contains(newdata@[t]));
                let a = choose|a: int| 0 <= a < pre.len() && pre[a] == newdata@[t];
            }
        }
        self.data = newdata;
        self.generation_since_improvement = 0;
    }
}

/// `g` is a copy of some genome of `s`: same tour, same table contents.
pub open spec fn drawn_from(g: Genome, s: Seq<Genome>) -> bool {
    exists|j: int|
        0 <= j < s.len() && g.data@ == s[j].data@ && g.table.n == s[j].table.n && g.table.d@
            == s[j].table.d@
}

impl Population {
    /// The selection weights of a generation, one per genome: the
    /// minimization objective inverts the raw tour lengths around the
    /// worst one, so the shortest tour gets the largest weight and even
    /// the worst tour keeps a weight of one.
    pub fn selection_weights(&self) -> (w: Vec<u64>)
        requires
            self.wf(),
        ensures
            w@.len() == self.data@.len(),
            forall|i: int|
                0 <= i < w@.len() ==> w@[i] == min_weight(
                    max_fitness(self.data@),
                    self.data@[i].spec_fitness(),
                ) && 1 <= w@[i] <= MAX_FITNESS + 1,
    {
        let k = self.data.len();
        let mut worst: u64 = self.data[0].fitness();
        proof {
            assert(self.data@.take(1) =~= seq![self.data@[0]]);
            assert(self.data@.take(1).len() == 1);
            assert(worst == max_fitness(self.data@.take(1)));
        }
        let mut i: usize = 1;
        while i < k
            invariant
                self.wf(),
                k == self.data@.len(),
                1 <= i <= k,
                worst == max_fitness(self.data@.take(i as int)),
                worst <= MAX_FITNESS,
            decreases k - i,
        {
            let f = self.data[i].fitness();
            proof {
                let t = self.data@.take(i + 1);
                assert(t.drop_last() =~= self.data@.take(i as int));
                assert(t.last() == self.data@[i as int]);
                assert(t.len() > 1);
            }
            if f > worst {
                worst = f;
            }
            i = i + 1;
        }
        proof {
            assert(self.data@.take(k as int) =~= self.data@);
        }
        let mut w: Vec<u64> = Vec::new();
        let mut t: usize = 0;
        while t < k
            invariant
                self.wf(),
                k == self.data@.len(),
                t <= k,
                worst == max_fitness(self.data@),
                worst <= MAX_FITNESS,
                w@.len() == t,
                forall|u: int|
                    0 <= u < t ==> w@[u] == min_weight(
                        max_fitness(self.data@),
                        self.data@[u].spec_fitness(),
                    ) && 1 <= w@[u] <= MAX_FITNESS + 1,
            decreases k - t,
        {
            let f = self.data[t].fitness();
            proof {
                lemma_max_fitness_ge(self.data@, t as int);
            }
            w.push(worst - f + 1);
            t = t + 1;
        }
        w
    }
}

impl Selection for Population {
    open spec fn select_wf(&self) -> bool {
        self.wf()
    }

    /// Draws `size` genomes with replacement, each draw weighted by the
    /// inverted fitness of `selection_weights`: shorter tours are drawn
    /// more often, and every genome stays drawable.
    fn selection(&self, size: usize) -> (r: Self)
        ensures
            r.data@.len() == size,
            forall|i: int| 0 <= i < r.data@.len() ==> drawn_from(#[trigger] r.data@[i], self.data@),
    {
        let k = self.data.len();
        let weights = self.selection_weights();
        proof {
            crate::rng::lemma_weight_sum_bound(weights@, MAX_FITNESS as int + 1);
            assert(weights@.len() * (MAX_FITNESS as int + 1) <= MAX_POP * (MAX_FITNESS as int
                + 1)) by (nonlinear_arith)
                requires
                    0 <= weights@.len() <= MAX_POP,
            ;
            crate::rng::lemma_weight_sum_pos(weights@, 0);
        }
        let mut out: Vec<Genome> = Vec::new();
        let mut c: usize = 0;
        while c < size
            invariant
                self.wf(),
                k == self.data@.len(),
                weights@.len() == k,
                0 < weight_sum(weights@) <= u64::MAX,
                out@.len() == c,
                c <= size,
                forall|i2: int|
                    0 <= i2 < out@.len() ==> drawn_from(#[trigger] out@[i2], self.data@),
            decreases size - c,
        {
            let pick = weighted_pick(&weights);
            let idx = match pick {
                Some(x) => x,
                None => {
                    // cannot happen: every weight is positive and their sum
                    // fits the weight type
                    proof {
                        assert(false);
                    }
                    0
                },
            };
            let g = self.data[idx].duplicate();
            out.push(g);
            c = c + 1;
            proof {
                let last = out@.len() - 1;
                assert(0 <= idx < self.data@.len() && out@[last].data@ == self.data@[
                    idx as int
                ].data@ && out@[last].table.n == self.data@[idx as int].table.n
                    && out@[last].table.d@ == self.data@[idx as int].table.d@);
                assert(drawn_from(out@[last], self.data@));
            }
        }
        Population { data: out, best: u64::MAX, generation_since_improvement: 0 }
    }
}

/// Two fresh parents for breeding, drawn by weighted selection.
fn pick_parents(population: &Population) -> (r: (Genome, Genome))
    requires
        population.wf(),
        population.data@.len() >= 2,
    ensures
        r.0.wf(),
        r.1.wf(),
        r.0.table.n == population.data@[0].table.n,
        r.0.table.d@ == population.data@[0].table.d@,
        r.1.table.n == population.data@[0].table.n,
        r.1.table.d@ == population.data@[0].table.d@,
    {
    let parents = population.selection(2);
    let ga = parents.data[0].duplicate();
    let gb = parents.data[1].duplicate();
    proof {
        assert(drawn_from(parents.data@[0], population.data@));
        assert(drawn_from(parents.data@[1], population.data@));
        let ja = choose|j: int|
            0 <= j < population.data@.len() && parents.data@[0].data@ == population.data@[j].data@
                && parents.data@[0].table.n == population.data@[j].table.n
                && parents.data@[0].table.d@ == population.data@[j].table.d@;
        let jb = choose|j: int|
            0 <= j < population.data@.len() && parents.data@[1].data@ == population.data@[j].data@
                && parents.data@[1].table.n == population.data@[j].table.n
                && parents.data@[1].table.d@ == population.data@[j].table.d@;
        assert(population.data@[ja].wf());
        assert(population.data@[jb].wf());
    }
    (ga, gb)
}

/// Some genome of the generation already meets (is at or under) the
/// target tour length.
pub open spec fn any_meets_target(s: Seq<Genome>, target: u64) -> bool {
    exists|j: int| 0 <= j < s.len() && s[j].spec_fitness() <= target
}

/// One evolutionary run: each generation ranks the population, feeds the
/// stagnation policy (a long stretch without improvement triggers an
/// elitist reset), stops with the best genome once its tour length is at
/// or under `target`, and otherwise breeds the next generation from two
/// elite genomes plus weighted-selected, crossed and mutated children.
/// Returns the solution and its generation index, or `None` when
/// `generation_limit` generations pass without reaching the target.
pub fn run_evolution(population: &mut Population, target: u64, generation_limit: usize) -> (r:
    Option<(Genome, usize)>)
    requires
        old(population).wf(),
        old(population).data@.len() >= 2,
        old(population).generation_since_improvement <= STAGNATION_LIMIT,
    ensures
        final(population).wf(),
        final(population).data@.len() == old(population).data@.len(),
        final(population).generation_since_improvement <= STAGNATION_LIMIT,
        r matches Some((g, i)) ==> g.wf() && g.spec_fitness() <= target && i < generation_limit
            && g.data@ == final(population).data@[0].data@
            && g.table.n == final(population).data@[0].table.n
            && g.table.d@ == final(population).data@[0].table.d@,
        generation_limit > 0 && any_meets_target(old(population).data@, target) ==> r is Some,
{
    let pop_len = population.data.len();
    let mut i: usize = 0;
    while i < generation_limit
        invariant
            population.wf(),
            pop_len == population.data@.len(),
            pop_len == old(population).data@.len(),
            pop_len >= 2,
            i <= generation_limit,
            population.generation_since_improvement <= STAGNATION_LIMIT,
            i == 0 ==> population.data@ == old(population).data@,
            i >= 1 ==> !any_meets_target(old(population).data@, target),
        decreases generation_limit - i,
    {
        let ghost pre = population.data@;
        sort_by_fitness(&mut population.data);
        proof {
            assert forall|t: int|
                0 <= t < population.data@.len() implies #[trigger] population.data@[t].table.n
                == population.data@[0].table.n && population.data@[t].table.d@
                == population.data@[0].table.d@ by {
                assert(pre.contains(population.data@[t]));
                let a = choose|a: int| 0 <= a < pre.len() && pre[a] == population.data@[t];
                assert(pre.contains(population.data@[0]));
                let b = choose|b: int| 0 <= b < pre.len() && pre[b] == population.data@[0];
                assert(pre[a].table.n == pre[0].table.n && pre[a].table.d@ == pre[0].table.d@);
                assert(pre[b].table.n == pre[0].table.n && pre[b].table.d@ == pre[0].table.d@);
            }
        }
        let ghost sorted_data = population.data@;
        let bf = population.data[0].fitness();
        population.note_best(bf);
        proof {
            assert(population.data@ == sorted_data);
        }
        if population.generation_since_improvement > STAGNATION_LIMIT {
            population.reset_with_best();
        }
        proof {
            assert(population.data@[0].spec_fitness() <= sorted_data[0].spec_fitness());
        }
        let bf2 = population.data[0].fitness();
        if bf2 <= target {
            let g = population.data[0].duplicate();
            return Some((g, i));
        }
        proof {
            if i == 0 && any_meets_target(old(population).data@, target) {
                let j = choose|j: int| 0 <= j < pre.len() && pre[j].spec_fitness() <= target;
                assert(sorted_data.contains(pre[j]));
                let idx = choose|idx: int|
                    0 <= idx < sorted_data.len() && sorted_data[idx] == pre[j];
                assert(sorted_data[0].spec_fitness() <= sorted_data[idx].spec_fitness());
                assert(population.data@[0].spec_fitness() <= target);
                assert(false);
            }
        }
        let mut buf: Vec<Genome> = Vec::new();
        buf.push(population.data[0].duplicate());
        buf.push(population.data[1].duplicate());
        while buf.len() < pop_len
            invariant
                population.wf(),
                pop_len == population.data@.len(),
                pop_len >= 2,
                1 <= buf@.len() <= pop_len,
                all_wf(buf@),
                forall|t: int|
                    #![trigger buf@[t]]
                    0 <= t < buf@.len() ==> buf@[t].table.n == population.data@[0].table.n
                        && buf@[t].table.d@ == population.data@[0].table.d@,
            decreases pop_len - buf.len(),
        {
            let (ga, gb) = pick_parents(population);
            let mut pair = Pair { a: ga, b: gb };
            pair.crossover();
            pair.mutate(1, 1, 2);
            buf.push(pair.a);
            if buf.len() < pop_len {
                buf.push(pair.b);
            }
        }
        population.data = buf;
        i = i + 1;
    }
    None
}

} // verus!
