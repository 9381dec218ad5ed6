//! The 0/1 knapsack problem on the evolutionary engine: a genome is a vector
//! of presence flags, one per item, and fitness is the value packed by a
//! greedy left-to-right scan that stops at the first item whose inclusion
//! would exceed the weight limit.

use crate::genetic::{Crossover, Fitness, Mutate, Selection, STAGNATION_LIMIT};
use crate::rng::{lemma_weight_sum_bound, lemma_weight_sum_pos, rand_chance, rand_index, weighted_pick, weight_sum};
use crate::util::copy_vec;
use vstd::prelude::*;

verus! {

/// One item that may be packed: a value to gain and a weight to pay.
/// The display label of an item plays no part in the computation and is
/// left to callers.
#[derive(Clone, Copy)]
pub struct Thing {
    pub value: u32,
    pub weight: u32,
}

impl Thing {
    pub fn new(value: u32, weight: u32) -> (r: Thing)
        ensures
            r.value == value,
            r.weight == weight,
    {
        Thing { value, weight }
    }
}

/// Every flag of a subset encoding is 0 or 1.
pub open spec fn bits_valid(bits: Seq<u32>) -> bool {
    forall|i: int| 0 <= i < bits.len() ==> bits[i] <= 1
}

/// Sum of the values of `things[i..]`, as an unbounded integer.
pub open spec fn value_sum_from(things: Seq<Thing>, i: int) -> int
    decreases things.len() - i,
{
    if i < 0 || i >= things.len() {
        0
    } else {
        things[i].value + value_sum_from(things, i + 1)
    }
}

pub proof fn lemma_value_sum_nonneg(things: Seq<Thing>, i: int)
    ensures
        value_sum_from(things, i) >= 0,
    decreases things.len() - i,
{
    if 0 <= i < things.len() {
        lemma_value_sum_nonneg(things, i + 1);
    }
}

/// The greedy-truncation fitness of a subset encoding, scanning from item
/// `i` with `weight` already packed: a present item is added while it fits;
/// the first present item that would push the packed weight past `limit`
/// stops the scan, and everything after it contributes nothing.
pub open spec fn packed_value(
    things: Seq<Thing>,
    bits: Seq<u32>,
    limit: int,
    i: int,
    weight: int,
) -> int
    decreases things.len() - i,
{
    if i < 0 || i >= things.len() || bits.len() != things.len() {
        0
    } else if weight + bits[i] * things[i].weight <= limit {
        bits[i] * things[i].value + packed_value(
            things,
            bits,
            limit,
            i + 1,
            weight + bits[i] * things[i].weight,
        )
    } else {
        0
    }
}

/// One candidate subset of the items, together with the problem instance it
/// is scored against.
pub struct Genome {
    pub data: Vec<u32>,
    pub things: Vec<Thing>,
    pub limit: u32,
}

impl Genome {
    /// A genome is well formed when it carries one 0/1 flag per item and the
    /// total item value fits the fitness type.
    pub open spec fn wf(self) -> bool {
        &&& self.data@.len() == self.things@.len()
        &&& bits_valid(self.data@)
        &&& value_sum_from(self.things@, 0) <= u32::MAX
    }

    /// The fitness this genome's encoding is worth.
    pub open spec fn spec_fitness(self) -> int {
        packed_value(self.things@, self.data@, self.limit as int, 0, 0)
    }

    /// A fresh genome with a uniformly random flag per item.
    pub fn new(things: &Vec<Thing>, limit: u32) -> (r: Genome)
        requires
            value_sum_from(things@, 0) <= u32::MAX,
        ensures
            r.wf(),
            r.things@ == things@,
            r.limit == limit,
    {
        let mut data: Vec<u32> = Vec::new();
        for i in 0..things.len()
            invariant
                data@.len() == i,
                bits_valid(data@),
        {
            let bit = rand_index(2);
            data.push(bit as u32);
        }
        Genome { data, things: copy_vec(things), limit }
    }

    /// An element-by-element copy: same encoding, same problem instance.
    pub fn duplicate(&self) -> (r: Genome)
        ensures
            r.data@ == self.data@,
            r.things@ == self.things@,
            r.limit == self.limit,
    {
        Genome { data: copy_vec(&self.data), things: copy_vec(&self.things), limit: self.limit }
    }
}

impl Fitness<u32> for Genome {
    open spec fn fitness_wf(&self) -> bool {
        self.wf()
    }

    /// Walks the items in encoding order, keeping a running weight and
    /// value; the scan stops at the first present item that would overflow
    /// the limit, so later items contribute nothing even if they would fit
    /// on their own.
    fn fitness(&self) -> (r: u32)
        ensures
            r == self.spec_fitness(),
    {
        let k = self.things.len();
        let mut weight: u32 = 0;
        let mut value: u32 = 0;
        let mut i: usize = 0;
        while i < k
            invariant
                self.wf(),
                k == self.things@.len(),
                0 <= i <= k,
                value + value_sum_from(self.things@, i as int) <= u32::MAX,
                weight <= self.limit,
                self.spec_fitness() == value + packed_value(
                    self.things@,
                    self.data@,
                    self.limit as int,
                    i as int,
                    weight as int,
                ),
            decreases k - i,
        {
            let add_w = if self.data[i] == 1 {
                self.things[i].weight
            } else {
                0
            };
            let add_v = if self.data[i] == 1 {
                self.things[i].value
            } else {
                0
            };
            proof {
                assert(add_w == self.data@[i as int] * self.things@[i as int].weight);
                assert(add_v == self.data@[i as int] * self.things@[i as int].value);
                lemma_value_sum_nonneg(self.things@, i + 1);
            }
            if weight as u64 + add_w as u64 <= self.limit as u64 {
                weight = weight + add_w;
                value = value + add_v;
                i = i + 1;
            } else {
                proof {
                    assert(packed_value(
                        self.things@,
                        self.data@,
                        self.limit as int,
                        i as int,
                        weight as int,
                    ) == 0);
                }
                return value;
            }
        }
        value
    }
}

impl Mutate for Genome {
    open spec fn mutate_wf(&self) -> bool {
        self.wf()
    }

    /// Repeatedly picks a uniformly random flag and flips it with
    /// probability `num / den`, until `n` flips have happened — flips are
    /// counted as successes, not attempts. A generous attempt budget bounds
    /// the loop; with a positive probability it is never exhausted in
    /// practice.
    fn mutate(&mut self, n: usize, num: u32, den: u32)
        ensures
            final(self).things@ == old(self).things@,
            final(self).limit == old(self).limit,
            final(self).data@.len() == old(self).data@.len(),
            old(self).data@.len() > 0 && n == 1 && num == den ==> exists|i: int|
                0 <= i < old(self).data@.len() && final(self).data@ == old(self).data@.update(
                    i,
                    (1 - old(self).data@[i]) as u32,
                ),
    {
        if self.data.len() == 0 {
            return ;
        }
        let len = self.data.len();
        let total: u128 = (n as u128) * 64;
        let mut tries: u128 = 0;
        let mut count: usize = 0;
        while count < n && tries < total
            invariant
                old(self).data@.len() > 0,
                len == self.data@.len(),
                len == old(self).data@.len(),
                bits_valid(self.data@),
                self.things@ == old(self).things@,
                self.limit == old(self).limit,
                count <= n,
                total == n as int * 64,
                1 <= num,
                num <= den,
                num == den ==> count == tries,
                count == 0 ==> self.data@ == old(self).data@,
                count >= 1 && n == 1 ==> exists|i: int|
                    0 <= i < old(self).data@.len() && self.data@ == old(self).data@.update(
                        i,
                        (1 - old(self).data@[i]) as u32,
                    ),
            decreases total - tries,
        {
            let i = rand_index(len);
            if rand_chance(num, den) {
                let x = self.data[i];
                let fx: u32 = if x == 1 {
                    0
                } else {
                    1
                };
                proof {
                    assert(fx == 1 - self.data@[i as int]);
                }
                self.data.set(i, fx);
                count = count + 1;
            }
            tries = tries + 1;
        }
    }
}

/// Two genomes borrowed together for one crossover-and-mutate step; after
/// the step the two slots hold the children.
pub struct Pair {
    pub a: Genome,
    pub b: Genome,
}

impl Crossover for Pair {
    open spec fn crossover_wf(&self) -> bool {
        self.a.wf() && self.b.wf() && self.a.data@.len() == self.b.data@.len()
    }

    /// Classic single-point crossover: a shared random cut point `c`, child
    /// A is parent A's prefix followed by parent B's suffix, child B the
    /// other way round.
    fn crossover(&mut self)
        ensures
            final(self).a.things@ == old(self).a.things@,
            final(self).a.limit == old(self).a.limit,
            final(self).b.things@ == old(self).b.things@,
            final(self).b.limit == old(self).b.limit,
            final(self).a.data@.len() == old(self).a.data@.len(),
            final(self).b.data@.len() == old(self).b.data@.len(),
            old(self).a.data@.len() == 0 ==> final(self).a.data@ == old(self).a.data@
                && final(self).b.data@ == old(self).b.data@,
            old(self).a.data@.len() > 0 ==> exists|c: int|
                0 <= c < old(self).a.data@.len() && final(self).a.data@ == old(
                    self,
                ).a.data@.take(c) + old(self).b.data@.skip(c) && final(self).b.data@ == old(
                    self,
                ).b.data@.take(c) + old(self).a.data@.skip(c),
    {
        if self.a.data.len() == 0 {
            return ;
        }
        let len = self.a.data.len();
        let cut = rand_index(len);
        let mut j = cut;
        while j < len
            invariant
                cut <= j <= len,
                len == self.a.data@.len(),
                len == self.b.data@.len(),
                len == old(self).a.data@.len(),
                len == old(self).b.data@.len(),
                self.a.things@ == old(self).a.things@,
                self.a.limit == old(self).a.limit,
                self.b.things@ == old(self).b.things@,
                self.b.limit == old(self).b.limit,
                bits_valid(self.a.data@),
                bits_valid(self.b.data@),
                forall|t: int|
                    0 <= t < cut ==> self.a.data@[t] == old(self).a.data@[t] && self.b.data@[t]
                        == old(self).b.data@[t],
                forall|t: int|
                    cut <= t < j ==> self.a.data@[t] == old(self).b.data@[t] && self.b.data@[t]
                        == old(self).a.data@[t],
                forall|t: int|
                    j <= t < len ==> self.a.data@[t] == old(self).a.data@[t] && self.b.data@[t]
                        == old(self).b.data@[t],
            decreases len - j,
        {
            let va = self.a.data[j];
            let vb = self.b.data[j];
            self.a.data.set(j, vb);
            self.b.data.set(j, va);
            j = j + 1;
        }
        proof {
            let c = cut as int;
            assert(self.a.data@ =~= old(self).a.data@.take(c) + old(self).b.data@.skip(c));
            assert(self.b.data@ =~= old(self).b.data@.take(c) + old(self).a.data@.skip(c));
        }
    }
}

impl Mutate for Pair {
    open spec fn mutate_wf(&self) -> bool {
        self.a.wf() && self.b.wf()
    }

    /// Mutates both children of the pair in one batched step.
    fn mutate(&mut self, n: usize, num: u32, den: u32)
        ensures
            final(self).a.things@ == old(self).a.things@,
            final(self).a.limit == old(self).a.limit,
            final(self).b.things@ == old(self).b.things@,
            final(self).b.limit == old(self).b.limit,
            final(self).a.data@.len() == old(self).a.data@.len(),
            final(self).b.data@.len() == old(self).b.data@.len(),
    {
        self.a.mutate(n, num, den);
        self.b.mutate(n, num, den);
    }
}

/// Ranking order of a generation: best (highest) fitness first.
pub open spec fn sorted_desc(s: Seq<Genome>) -> bool {
    forall|i: int, j: int| 0 <= i < j < s.len() ==> s[i].spec_fitness() >= s[j].spec_fitness()
}

/// Every genome of the sequence is well formed.
pub open spec fn all_wf(s: Seq<Genome>) -> bool {
    forall|i: int| 0 <= i < s.len() ==> s[i].wf()
}

/// Sorts a generation by fitness, best first, by repeatedly extracting a
/// genome of maximal fitness. The result is a reordering of the input: same
/// multiset of genomes.
fn sort_by_fitness(v: &mut Vec<Genome>)
    requires
        all_wf(old(v)@),
    ensures
        final(v)@.len() == old(v)@.len(),
        final(v)@.to_multiset() == old(v)@.to_multiset(),
        sorted_desc(final(v)@),
        all_wf(final(v)@),
        forall|j: int| 0 <= j < old(v)@.len() ==> final(v)@.contains(old(v)@[j]),
        forall|i: int| 0 <= i < final(v)@.len() ==> old(v)@.contains(final(v)@[i]),
{
    let ghost orig = old(v)@;
    let mut r: Vec<Genome> = Vec::new();
    proof {
        broadcast use vstd::seq_lib::group_to_multiset_ensures;
        broadcast use vstd::multiset::group_multiset_axioms;

        vstd::multiset::lemma_multiset_empty_len(r@.to_multiset());
        assert(r@.to_multiset().add(v@.to_multiset()) =~= orig.to_multiset());
    }
    while v.len() > 0
        invariant
            all_wf(v@),
            all_wf(r@),
            r@.to_multiset().add(v@.to_multiset()) == orig.to_multiset(),
            sorted_desc(r@),
            forall|x: int, y: int|
                0 <= x < r@.len() && 0 <= y < v@.len() ==> r@[x].spec_fitness()
                    >= v@[y].spec_fitness(),
            r@.len() + v@.len() == orig.len(),
        decreases v.len(),
    {
        let mut m: usize = 0;
        let mut best: u32 = v[0].fitness();
        let mut mi: usize = 1;
        while mi < v.len()
            invariant
                all_wf(v@),
                v@.len() > 0,
                m < mi <= v@.len(),
                best == v@[m as int].spec_fitness(),
                forall|t: int|
                    0 <= t < mi ==> v@[t].spec_fitness() <= v@[m as int].spec_fitness(),
            decreases v.len() - mi,
        {
            let f = v[mi].fitness();
            if f > best {
                m = mi;
                best = f;
            }
            mi = mi + 1;
        }
        let ghost pv = v@;
        let ghost pr = r@;
        let g = v.remove(m);
        r.push(g);
        proof {
            broadcast use vstd::seq_lib::group_to_multiset_ensures;
            broadcast use vstd::multiset::group_multiset_axioms;

            pv.remove_ensures(m as int);
            assert(v@.to_multiset() =~= pv.to_multiset().remove(g));
            assert(pv.contains(g));
            assert(pv.to_multiset().count(g) >= 1);
            assert(r@.to_multiset() =~= pr.to_multiset().insert(g));
            assert forall|x: Genome|
                r@.to_multiset().add(v@.to_multiset()).count(x) == orig.to_multiset().count(
                    x,
                ) by {
                assert(pr.to_multiset().add(pv.to_multiset()).count(x) == orig.to_multiset().count(
                    x,
                ));
            }
            assert(r@.to_multiset().add(v@.to_multiset()) =~= orig.to_multiset());
        }
    }
    proof {
        broadcast use vstd::seq_lib::group_to_multiset_ensures;
        broadcast use vstd::multiset::group_multiset_axioms;

        vstd::multiset::lemma_multiset_empty_len(v@.to_multiset());
        assert(v@.to_multiset().len() == 0);
        assert(r@.to_multiset().add(v@.to_multiset()) =~= r@.to_multiset());
        assert(r@.to_multiset() == orig.to_multiset());
        assert forall|j: int| 0 <= j < orig.len() implies r@.contains(orig[j]) by {
            assert(orig.contains(orig[j]));
            assert(orig.to_multiset().count(orig[j]) > 0);
            assert(r@.to_multiset().count(orig[j]) > 0);
        }
        assert forall|i: int| 0 <= i < r@.len() implies orig.contains(r@[i]) by {
            assert(r@.contains(r@[i]));
            assert(r@.to_multiset().count(r@[i]) > 0);
            assert(orig.to_multiset().count(r@[i]) > 0);
        }
    }
    *v = r;
}

/// The working set of genomes evolved together, plus the run-level state
/// of the stagnation policy: the best fitness ever observed and the count
/// of generations since it last improved.
pub struct Population {
    pub data: Vec<Genome>,
    pub best: u32,
    pub generation_since_improvement: usize,
}

impl Population {
    /// A population is well formed when it is non-empty, every genome is
    /// well formed and all genomes share one problem instance.
    pub open spec fn wf(self) -> bool {
        &&& 1 <= self.data@.len() <= u32::MAX
        &&& all_wf(self.data@)
        &&& forall|i: int|
            #![trigger self.data@[i]]
            0 <= i < self.data@.len() ==> self.data@[i].things@ == self.data@[0].things@
                && self.data@[i].limit == self.data@[0].limit
    }

    /// A fresh population of `pop_size` random genomes over one shared item
    /// set and weight limit.
    pub fn new(pop_size: u32, things: &Vec<Thing>, limit: u32) -> (r: Population)
        requires
            pop_size >= 1,
            value_sum_from(things@, 0) <= u32::MAX,
        ensures
            r.wf(),
            r.data@.len() == pop_size,
            r.best == 0,
            r.generation_since_improvement == 0,
            forall|i: int|
                0 <= i < r.data@.len() ==> r.data@[i].things@ == things@ && r.data@[i].limit
                    == limit,
    {
        let mut data: Vec<Genome> = Vec::new();
        let mut c: u32 = 0;
        while c < pop_size
            invariant
                c <= pop_size,
                data@.len() == c,
                value_sum_from(things@, 0) <= u32::MAX,
                all_wf(data@),
                forall|i: int|
                    0 <= i < data@.len() ==> data@[i].things@ == things@ && data@[i].limit
                        == limit,
            decreases pop_size - c,
        {
            data.push(Genome::new(things, limit));
            c = c + 1;
        }
        Population { data, best: 0, generation_since_improvement: 0 }
    }

    /// Records the best fitness of the freshly ranked generation: a strict
    /// improvement stores it and resets the stagnation counter to zero; any
    /// other outcome leaves the record and adds exactly one stagnant
    /// generation.
    pub fn note_best(&mut self, fit: u32)
        requires
            old(self).generation_since_improvement < usize::MAX,
        ensures
            final(self).data == old(self).data,
            fit > old(self).best ==> final(self).best == fit
                && final(self).generation_since_improvement == 0,
            fit <= old(self).best ==> final(self).best == old(self).best
                && final(self).generation_since_improvement == old(
                self,
            ).generation_since_improvement + 1,
    {
        if fit > self.best {
            self.best = fit;
            self.generation_since_improvement = 0;
        } else {
            self.generation_since_improvement = self.generation_since_improvement + 1;
        }
    }

    /// Diversification after stagnation: keep only the single best genome,
    /// refill the population with fresh random genomes, re-rank it and
    /// reset the stagnation counter. The best genome found so far is never
    /// lost.
    pub fn reset_with_best(&mut self)
        requires
            old(self).wf(),
        ensures
            final(self).wf(),
            final(self).data@.len() == old(self).data@.len(),
            final(self).best == old(self).best,
            final(self).generation_since_improvement == 0,
            final(self).data@[0].things@ == old(self).data@[0].things@,
            final(self).data@[0].limit == old(self).data@[0].limit,
            exists|idx: int|
                0 <= idx < final(self).data@.len() && final(self).data@[idx].data@ == old(
                    self,
                ).data@[0].data@,
            final(self).data@[0].spec_fitness() >= old(self).data@[0].spec_fitness(),
            sorted_desc(final(self).data@),
    {
        let len = self.data.len();
        let keep = self.data[0].duplicate();
        let ghost keep0 = keep;
        let mut newdata: Vec<Genome> = Vec::new();
        newdata.push(keep);
        while newdata.len() < len
            invariant
                self.wf(),
                self == old(self),
                len == self.data@.len(),
                1 <= newdata@.len() <= len,
                all_wf(newdata@),
                newdata@[0] == keep0,
                keep0.wf(),
                keep0.data@ == old(self).data@[0].data@,
                keep0.spec_fitness() == old(self).data@[0].spec_fitness(),
                forall|i: int|
                    #![trigger newdata@[i]]
                    0 <= i < newdata@.len() ==> newdata@[i].things@ == old(
                        self,
                    ).data@[0].things@ && newdata@[i].limit == old(self).data@[0].limit,
            decreases len - newdata.len(),
        {
            newdata.push(Genome::new(&self.data[0].things, self.data[0].limit));
        }
        let ghost pre = newdata@;
        sort_by_fitness(&mut newdata);
        proof {
            assert(pre.contains(keep0));
            assert(newdata@.contains(keep0));
            let kidx = choose|kidx: int| 0 <= kidx < newdata@.len() && newdata@[kidx] == keep0;
            assert(newdata@[0].spec_fitness() >= newdata@[kidx].spec_fitness());
            assert forall|t: int|
                0 <= t < newdata@.len() implies #[trigger] newdata@[t].things@ == old(
                self,
            ).data@[0].things@ && newdata@[t].limit == old(self).data@[0].limit by {
                assert(pre.contains(newdata@[t]));
                let a = choose|a: int| 0 <= a < pre.len() && pre[a] == newdata@[t];
            }
        }
        self.data = newdata;
        self.generation_since_improvement = 0;
    }
}

/// `g` is a copy of some genome of `s` whose fitness is positive.
pub open spec fn drawn_from(g: Genome, s: Seq<Genome>) -> bool {
    exists|j: int|
        0 <= j < s.len() && g.data@ == s[j].data@ && g.things@ == s[j].things@ && g.limit
            == s[j].limit && s[j].spec_fitness() > 0
}

impl Selection for Population {
    open spec fn select_wf(&self) -> bool {
        self.wf()
    }

    /// Draws `size` genomes with replacement, each draw weighted directly by
    /// fitness (the knapsack objective is maximized). Only genomes of
    /// positive fitness can be drawn; when no genome has positive fitness
    /// there is nothing to weight and an empty population is returned.
    fn selection(&self, size: usize) -> (r: Self)
        ensures
            r.data@.len() <= size,
            forall|i: int| 0 <= i < r.data@.len() ==> drawn_from(#[trigger] r.data@[i], self.data@),
            (exists|j: int| 0 <= j < self.data@.len() && self.data@[j].spec_fitness() > 0)
                ==> r.data@.len() == size,
    {
        let k = self.data.len();
        let mut weights: Vec<u64> = Vec::new();
        let mut i: usize = 0;
        while i < k
            invariant
                self.wf(),
                k == self.data@.len(),
                i <= k,
                weights@.len() == i,
                forall|t: int|
                    0 <= t < i ==> weights@[t] == self.data@[t].spec_fitness() && weights@[t]
                        <= u32::MAX,
            decreases k - i,
        {
            let f = self.data[i].fitness();
            weights.push(f as u64);
            i = i + 1;
        }
        proof {
            lemma_weight_sum_bound(weights@, u32::MAX as int);
            assert(weights@.len() * (u32::MAX as int) <= (u32::MAX as int) * (u32::MAX as int))
                by (nonlinear_arith)
                requires
                    0 <= weights@.len() <= u32::MAX as int,
            ;
        }
        let mut out: Vec<Genome> = Vec::new();
        let mut c: usize = 0;
        let mut failed = false;
        while c < size && !failed
            invariant
                self.wf(),
                k == self.data@.len(),
                weights@.len() == k,
                forall|t: int|
                    0 <= t < k ==> weights@[t] == self.data@[t].spec_fitness() && weights@[t]
                        <= u32::MAX,
                weight_sum(weights@) <= u64::MAX,
                out@.len() == c,
                c <= size,
                forall|i2: int| 0 <= i2 < out@.len() ==> drawn_from(#[trigger] out@[i2], self.data@),
                failed ==> !(exists|j: int|
                    0 <= j < self.data@.len() && self.data@[j].spec_fitness() > 0),
            decreases size - c + (if failed { 0int } else { 1int }),
        {
            match weighted_pick(&weights) {
                Some(idx) => {
                    let g = self.data[idx].duplicate();
                    out.push(g);
                    c = c + 1;
                    proof {
                        let last = out@.len() - 1;
                        assert(0 <= idx < self.data@.len() && out@[last].data@ == self.data@[
                            idx as int
                        ].data@ && out@[last].things@ == self.data@[idx as int].things@
                            && out@[last].limit == self.data@[idx as int].limit && self.data@[
                            idx as int
                        ].spec_fitness() > 0);
                        assert(drawn_from(out@[last], self.data@));
                    }
                },
                None => {
                    proof {
                        if exists|j: int|
                            0 <= j < self.data@.len() && self.data@[j].spec_fitness() > 0 {
                            let j = choose|j: int|
                                0 <= j < self.data@.len() && self.data@[j].spec_fitness() > 0;
                            lemma_weight_sum_pos(weights@, j);
                        }
                    }
                    failed = true;
                },
            }
        }
        Population { data: out, best: 0, generation_since_improvement: 0 }
    }
}

/// Two fresh parents for breeding: a weighted draw when some genome has
/// positive fitness, and copies of the two front genomes otherwise.
fn pick_parents(population: &Population) -> (r: (Genome, Genome))
    requires
        population.wf(),
        population.data@.len() >= 2,
    ensures
        r.0.wf(),
        r.1.wf(),
        r.0.things@ == population.data@[0].things@,
        r.0.limit == population.data@[0].limit,
        r.1.things@ == population.data@[0].things@,
        r.1.limit == population.data@[0].limit,
{
    let parents = population.selection(2);
    if parents.data.len() >= 2 {
        let ga = parents.data[0].duplicate();
        let gb = parents.data[1].duplicate();
        proof {
            assert(drawn_from(parents.data@[0], population.data@));
            assert(drawn_from(parents.data@[1], population.data@));
            let ja = choose|j: int|
                0 <= j < population.data@.len() && parents.data@[0].data@ == population.data@[
                    j
                ].data@ && parents.data@[0].things@ == population.data@[j].things@ && parents.data@[
                    0
                ].limit == population.data@[j].limit && population.data@[j].spec_fitness() > 0;
            let jb = choose|j: int|
                0 <= j < population.data@.len() && parents.data@[1].data@ == population.data@[
                    j
                ].data@ && parents.data@[1].things@ == population.data@[j].things@ && parents.data@[
                    1
                ].limit == population.data@[j].limit && population.data@[j].spec_fitness() > 0;
            assert(population.data@[ja].wf());
            assert(population.data@[jb].wf());
        }
        (ga, gb)
    } else {
        (population.data[0].duplicate(), population.data[1].duplicate())
    }
}

/// Some genome of the generation already meets the target.
pub open spec fn any_meets_target(s: Seq<Genome>, target: u32) -> bool {
    exists|j: int| 0 <= j < s.len() && s[j].spec_fitness() >= target
}

/// One evolutionary run: each generation ranks the population, stops with
/// the best genome once it reaches `target`, and otherwise breeds the next
/// generation from two elite genomes plus weighted-selected, crossed and
/// mutated children. Returns the solution and its generation index, or
/// `None` when `generation_limit` generations pass without reaching the
/// target.
pub fn run_evolution(population: &mut Population, target: u32, generation_limit: usize) -> (r:
    Option<(Genome, usize)>)
    requires
        old(population).wf(),
        old(population).data@.len() >= 2,
        old(population).generation_since_improvement <= STAGNATION_LIMIT,
    ensures
        final(population).wf(),
        final(population).data@.len() == old(population).data@.len(),
        final(population).generation_since_improvement <= STAGNATION_LIMIT,
        r matches Some((g, i)) ==> g.wf() && g.spec_fitness() >= target && i < generation_limit
            && g.data@ == final(population).data@[0].data@
            && g.things@ == final(population).data@[0].things@
            && g.limit == final(population).data@[0].limit,
        generation_limit > 0 && any_meets_target(old(population).data@, target) ==> r is Some,
{
    let pop_len = population.data.len();
    let mut i: usize = 0;
    while i < generation_limit
        invariant
            population.wf(),
            pop_len == population.data@.len(),
            pop_len == old(population).data@.len(),
            pop_len >= 2,
            i <= generation_limit,
            population.generation_since_improvement <= STAGNATION_LIMIT,
            i == 0 ==> population.data@ == old(population).data@,
            i >= 1 ==> !any_meets_target(old(population).data@, target),
        decreases generation_limit - i,
    {
        let ghost pre = population.data@;
        sort_by_fitness(&mut population.data);
        proof {
            assert forall|t: int|
                0 <= t < population.data@.len() implies #[trigger] population.data@[t].things@
                == population.data@[0].things@ && population.data@[t].limit
                == population.data@[0].limit by {
                assert(pre.contains(population.data@[t]));
                let a = choose|a: int| 0 <= a < pre.len() && pre[a] == population.data@[t];
                assert(pre.contains(population.data@[0]));
                let b = choose|b: int| 0 <= b < pre.len() && pre[b] == population.data@[0];
                assert(pre[a].things@ == pre[0].things@ && pre[a].limit == pre[0].limit);
                assert(pre[b].things@ == pre[0].things@ && pre[b].limit == pre[0].limit);
            }
        }
        let ghost sorted_data = population.data@;
        let bf = population.data[0].fitness();
        population.note_best(bf);
        proof {
            assert(population.data@ == sorted_data);
        }
        if population.generation_since_improvement > STAGNATION_LIMIT {
            population.reset_with_best();
        }
        proof {
            assert(population.data@[0].spec_fitness() >= sorted_data[0].spec_fitness());
        }
        let best_f = population.data[0].fitness();
        if best_f >= target {
            proof {
                assert(population.data@[0].wf());
            }
            let g = population.data[0].duplicate();
            return Some((g, i));
        }
        proof {
            if i == 0 && any_meets_target(old(population).data@, target) {
                let j = choose|j: int|
                    0 <= j < old(population).data@.len() && old(population).data@[j].spec_fitness()
                        >= target;
                assert(sorted_data.contains(old(population).data@[j]));
                let idx = choose|idx: int|
                    0 <= idx < sorted_data.len() && sorted_data[idx] == old(population).data@[j];
                assert(sorted_data[0].spec_fitness() >= sorted_data[idx].spec_fitness());
                assert(population.data@[0].spec_fitness() >= target);
                assert(false);
            }
        }
        let mut buf: Vec<Genome> = Vec::new();
        buf.push(population.data[0].duplicate());
        buf.push(population.data[1].duplicate());
        while buf.len() < pop_len
            invariant
                population.wf(),
                pop_len == population.data@.len(),
                pop_len >= 2,
                1 <= buf@.len() <= pop_len,
                all_wf(buf@),
                forall|t: int|
                    0 <= t < buf@.len() ==> buf@[t].things@ == population.data@[0].things@
                        && buf@[t].limit == population.data@[0].limit,
            decreases pop_len - buf.len(),
        {
            let (ga, gb) = pick_parents(population);
            let mut pair = Pair { a: ga, b: gb };
            pair.crossover();
            pair.mutate(1, 1, 2);
            buf.push(pair.a);
            if buf.len() < pop_len {
                buf.push(pair.b);
            }
        }
        population.data = buf;
        i = i + 1;
    }
    None
}

/// The greedy scan of `packed_value` never stops when scanning `bits[i..]`
/// from an already-packed weight of `weight`: every present item fits.
pub open spec fn no_overflow(
    things: Seq<Thing>,
    bits: Seq<u32>,
    limit: int,
    i: int,
    weight: int,
) -> bool
    decreases things.len() - i,
{
    if i < 0 || i >= things.len() || bits.len() != things.len() {
        true
    } else {
        weight + bits[i] * things[i].weight <= limit && no_overflow(
            things,
            bits,
            limit,
            i + 1,
            weight + bits[i] * things[i].weight,
        )
    }
}

/// Plain value sum of the items selected by `bits[i..]`, with no weight
/// limit applied.
pub open spec fn picked_value(things: Seq<Thing>, bits: Seq<u32>, i: int) -> int
    decreases things.len() - i,
{
    if i < 0 || i >= things.len() || bits.len() != things.len() {
        0
    } else {
        bits[i] * things[i].value + picked_value(things, bits, i + 1)
    }
}

/// Index at which the greedy scan stops, or the item count when it never
/// stops.
pub open spec fn trunc_point(
    things: Seq<Thing>,
    bits: Seq<u32>,
    limit: int,
    i: int,
    weight: int,
) -> int
    decreases things.len() - i,
{
    if i < 0 || i >= things.len() || bits.len() != things.len() {
        things.len() as int
    } else if weight + bits[i] * things[i].weight <= limit {
        trunc_point(things, bits, limit, i + 1, weight + bits[i] * things[i].weight)
    } else {
        i
    }
}

proof fn lemma_trunc_point_range(things: Seq<Thing>, bits: Seq<u32>, limit: int, i: int, weight: int)
    requires
        0 <= i <= things.len(),
    ensures
        i <= trunc_point(things, bits, limit, i, weight) <= things.len(),
    decreases things.len() - i,
{
    if i < things.len() && bits.len() == things.len() && weight + bits[i] * things[i].weight
        <= limit {
        lemma_trunc_point_range(things, bits, limit, i + 1, weight + bits[i] * things[i].weight);
    }
}

proof fn lemma_packed_no_overflow(
    things: Seq<Thing>,
    bits: Seq<u32>,
    limit: int,
    i: int,
    weight: int,
)
    requires
        no_overflow(things, bits, limit, i, weight),
    ensures
        packed_value(things, bits, limit, i, weight) == picked_value(things, bits, i),
    decreases things.len() - i,
{
    if 0 <= i < things.len() && bits.len() == things.len() {
        lemma_packed_no_overflow(things, bits, limit, i + 1, weight + bits[i] * things[i].weight);
    }
}

proof fn lemma_no_overflow_fewer(
    things: Seq<Thing>,
    b1: Seq<u32>,
    b2: Seq<u32>,
    limit: int,
    i: int,
    w1: int,
    w2: int,
)
    requires
        b1.len() == things.len(),
        b2.len() == things.len(),
        forall|t: int| 0 <= t < b1.len() ==> b1[t] <= b2[t],
        w1 <= w2,
        no_overflow(things, b2, limit, i, w2),
    ensures
        no_overflow(things, b1, limit, i, w1),
    decreases things.len() - i,
{
    if 0 <= i < things.len() {
        assert(b1[i] * things[i].weight <= b2[i] * things[i].weight) by (nonlinear_arith)
            requires
                b1[i] <= b2[i],
                things[i].weight >= 0,
        ;
        lemma_no_overflow_fewer(
            things,
            b1,
            b2,
            limit,
            i + 1,
            w1 + b1[i] * things[i].weight,
            w2 + b2[i] * things[i].weight,
        );
    }
}

proof fn lemma_picked_monotone(things: Seq<Thing>, b1: Seq<u32>, b2: Seq<u32>, i: int)
    requires
        b1.len() == things.len(),
        b2.len() == things.len(),
        forall|t: int| 0 <= t < b1.len() ==> b1[t] <= b2[t],
    ensures
        picked_value(things, b1, i) <= picked_value(things, b2, i),
    decreases things.len() - i,
{
    if 0 <= i < things.len() {
        assert(b1[i] * things[i].value <= b2[i] * things[i].value) by (nonlinear_arith)
            requires
                b1[i] <= b2[i],
                things[i].value >= 0,
        ;
        lemma_picked_monotone(things, b1, b2, i + 1);
    }
}

/// Law: knapsack fitness is monotone in the subset, up to the point of
/// overflow. Whenever the larger subset `b2` packs every one of its present
/// items without ever exceeding the limit, any subset `b1` of it (pointwise
/// smaller flags) has a fitness that is no larger.
pub proof fn lemma_fitness_monotone_within_limit(
    things: Seq<Thing>,
    b1: Seq<u32>,
    b2: Seq<u32>,
    limit: u32,
)
    requires
        b1.len() == things.len(),
        b2.len() == things.len(),
        forall|t: int| 0 <= t < b1.len() ==> b1[t] <= b2[t],
        no_overflow(things, b2, limit as int, 0, 0),
    ensures
        packed_value(things, b1, limit as int, 0, 0) <= packed_value(things, b2, limit as int, 0, 0),
{
    lemma_no_overflow_fewer(things, b1, b2, limit as int, 0, 0, 0);
    lemma_packed_no_overflow(things, b1, limit as int, 0, 0);
    lemma_packed_no_overflow(things, b2, limit as int, 0, 0);
    lemma_picked_monotone(things, b1, b2, 0);
}

proof fn lemma_update_past_trunc(
    things: Seq<Thing>,
    bits: Seq<u32>,
    limit: int,
    i: int,
    weight: int,
    j: int,
    x: u32,
)
    requires
        bits.len() == things.len(),
        0 <= i,
        trunc_point(things, bits, limit, i, weight) < j < things.len(),
    ensures
        packed_value(things, bits.update(j, x), limit, i, weight) == packed_value(
            things,
            bits,
            limit,
            i,
            weight,
        ),
    decreases things.len() - i,
{
    lemma_trunc_point_range(things, bits, limit, i, weight);
    if i < things.len() {
        if weight + bits[i] * things[i].weight <= limit {
            lemma_update_past_trunc(
                things,
                bits,
                limit,
                i + 1,
                weight + bits[i] * things[i].weight,
                j,
                x,
            );
        }
    }
}

/// Law: every item strictly after the first overflow in encoding order
/// contributes exactly nothing — flipping its flag, either way, leaves the
/// greedy-truncation fitness unchanged.
pub proof fn lemma_no_gain_past_overflow(
    things: Seq<Thing>,
    bits: Seq<u32>,
    limit: u32,
    j: int,
    x: u32,
)
    requires
        bits.len() == things.len(),
        trunc_point(things, bits, limit as int, 0, 0) < j < things.len(),
    ensures
        packed_value(things, bits.update(j, x), limit as int, 0, 0) == packed_value(
            things,
            bits,
            limit as int,
            0,
            0,
        ),
{
    lemma_update_past_trunc(things, bits, limit as int, 0, 0, j, x);
}

} // verus!
