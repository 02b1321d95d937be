//! A population: a bounded collection of individuals, fittest first.

use crate::gain::random_gain;
use crate::gain::share_of;
use crate::individual::Genome;
use crate::individual::Individual;
use crate::individual::Model;
use crate::work::chunk_of;
use crate::work::chunk_served;
use crate::work::joined;
use crate::work::lemma_joined_length;
use crate::work::lemma_joined_members;
use crate::work::may_pool;
use crate::work::pool_served;
use crate::work::work_pool;
use crate::work::Work;
use crate::rng::forked;
use crate::rng::next_word;
use crate::rng::seeded;
use rand::rngs::StdRng;
use vstd::multiset::Multiset;
use vstd::prelude::*;
use vstd::seq_lib::to_multiset_insert;
use vstd::seq_lib::to_multiset_remove;

verus! {

/// The largest number of individuals that a population holds.
pub const CAPACITY: usize = 1000;

/// No individual is followed by a fitter one.
pub open spec fn ascending(s: Seq<Individual>) -> bool {
    forall|i: int, j: int| 0 <= i <= j < s.len() ==> s[i].rank() <= s[j].rank()
}

/// Every cost is a finite number.
pub open spec fn all_viable(s: Seq<Individual>) -> bool {
    forall|i: int| 0 <= i < s.len() ==> (#[trigger] s[i]).viable()
}

/// What holds of the members of every population: they are in ascending
/// order of cost, every cost is finite, and they are at most `CAPACITY`.
pub open spec fn well_formed(s: Seq<Individual>) -> bool {
    ascending(s) && all_viable(s) && s.len() <= CAPACITY
}

/// Where a newcomer goes among `s`: behind the last member that is not less
/// fit than the newcomer, at the front where there is none.
pub open spec fn insertion_point(s: Seq<Individual>, newcomer: Individual) -> int
    decreases s.len(),
{
    if s.len() == 0 {
        0
    } else if s.last().rank() <= newcomer.rank() {
        s.len() as int
    } else {
        insertion_point(s.drop_last(), newcomer)
    }
}

/// The members of `s` with a finite cost, in ascending order of cost; those of
/// equal cost in the order in which they stand in `s`. Each member in turn is
/// put at its insertion point among those before it; `lemma_ranked_stable`
/// says what comes of it.
pub open spec fn ranked(s: Seq<Individual>) -> Seq<Individual>
    decreases s.len(),
{
    if s.len() == 0 {
        Seq::empty()
    } else {
        let rest = ranked(s.drop_last());
        if s.last().viable() {
            rest.insert(insertion_point(rest, s.last()), s.last())
        } else {
            rest
        }
    }
}

/// The population made of `s`: its members with a finite cost in ascending
/// order, cut after the first `CAPACITY`.
pub open spec fn normalized(s: Seq<Individual>) -> Seq<Individual> {
    let r = ranked(s);
    if r.len() > CAPACITY {
        r.take(CAPACITY as int)
    } else {
        r
    }
}

/// Number of members of `s` whose cost is not finite.
pub open spec fn unviable_count(s: Seq<Individual>) -> nat
    decreases s.len(),
{
    if s.len() == 0 {
        0
    } else {
        unviable_count(s.drop_last()) + if s.last().viable() {
            0nat
        } else {
            1nat
        }
    }
}

/// The insertion point is the one position with no fitter member behind it
/// and a member that is not less fit just before it.
pub proof fn lemma_insertion_point(s: Seq<Individual>, newcomer: Individual, at: int)
    requires
        0 <= at <= s.len(),
        at > 0 ==> s[at - 1].rank() <= newcomer.rank(),
        forall|k: int| at <= k < s.len() ==> (#[trigger] s[k]).rank() > newcomer.rank(),
    ensures
        insertion_point(s, newcomer) == at,
    decreases s.len(),
{
    if s.len() > 0 && at < s.len() {
        assert(s[s.len() - 1].rank() > newcomer.rank());
        let shorter = s.drop_last();
        assert forall|k: int| at <= k < shorter.len() implies (#[trigger] shorter[k]).rank()
            > newcomer.rank() by {
            assert(shorter[k] == s[k]);
        }
        lemma_insertion_point(shorter, newcomer, at);
    }
}

/// The insertion point lies within the sequence, behind members that are not
/// less fit where the sequence is ascending, and before fitter ones.
pub proof fn lemma_insertion_point_splits(s: Seq<Individual>, newcomer: Individual)
    requires
        ascending(s),
    ensures
        0 <= insertion_point(s, newcomer) <= s.len(),
        forall|k: int|
            0 <= k < insertion_point(s, newcomer) ==> (#[trigger] s[k]).rank() <= newcomer.rank(),
        forall|k: int|
            insertion_point(s, newcomer) <= k < s.len() ==> (#[trigger] s[k]).rank()
                > newcomer.rank(),
    decreases s.len(),
{
    if s.len() > 0 && s.last().rank() > newcomer.rank() {
        let shorter = s.drop_last();
        assert(ascending(shorter)) by {
            assert forall|i: int, j: int| 0 <= i <= j < shorter.len() implies shorter[i].rank()
                <= shorter[j].rank() by {
                assert(shorter[i] == s[i] && shorter[j] == s[j]);
            }
        }
        lemma_insertion_point_splits(shorter, newcomer);
        let at = insertion_point(shorter, newcomer);
        assert forall|k: int| 0 <= k < at implies (#[trigger] s[k]).rank() <= newcomer.rank() by {
            assert(shorter[k] == s[k]);
        }
        assert forall|k: int| at <= k < s.len() implies (#[trigger] s[k]).rank()
            > newcomer.rank() by {
            if k < shorter.len() {
                assert(shorter[k] == s[k]);
            }
        }
    } else if s.len() > 0 {
        assert forall|k: int| 0 <= k < s.len() implies (#[trigger] s[k]).rank()
            <= newcomer.rank() by {
            assert(s[k].rank() <= s[s.len() - 1].rank());
        }
    }
}

/// Putting a viable newcomer at its insertion point keeps a sequence
/// ascending and viable.
pub proof fn lemma_insert_keeps_order(s: Seq<Individual>, newcomer: Individual)
    requires
        ascending(s),
        all_viable(s),
        newcomer.viable(),
    ensures
        ascending(s.insert(insertion_point(s, newcomer), newcomer)),
        all_viable(s.insert(insertion_point(s, newcomer), newcomer)),
        s.insert(insertion_point(s, newcomer), newcomer).len() == s.len() + 1,
{
    lemma_insertion_point_splits(s, newcomer);
    let at = insertion_point(s, newcomer);
    let t = s.insert(at, newcomer);
    assert forall|i: int, j: int| 0 <= i <= j < t.len() implies t[i].rank() <= t[j].rank() by {
        let a = if i < at {
            s[i]
        } else if i == at {
            newcomer
        } else {
            s[i - 1]
        };
        let b = if j < at {
            s[j]
        } else if j == at {
            newcomer
        } else {
            s[j - 1]
        };
        assert(t[i] == a && t[j] == b);
    }
    assert forall|i: int| 0 <= i < t.len() implies (#[trigger] t[i]).viable() by {
        if i < at {
            assert(t[i] == s[i]);
        } else if i > at {
            assert(t[i] == s[i - 1]);
        }
    }
}

/// Ranking gives an ascending sequence of viable individuals: as many as the
/// viable ones ranked, each with its number of occurrences.
pub proof fn lemma_ranked(s: Seq<Individual>)
    ensures
        ascending(ranked(s)),
        all_viable(ranked(s)),
        ranked(s).len() + unviable_count(s) == s.len(),
        forall|x: Individual|
            ranked(s).to_multiset().count(x) == if x.viable() {
                s.to_multiset().count(x)
            } else {
                0
            },
    decreases s.len(),
{
    broadcast use vstd::seq_lib::group_to_multiset_ensures;

    if s.len() == 0 {
        assert(ranked(s).len() == 0);
    } else {
        let shorter = s.drop_last();
        let last = s.last();
        lemma_ranked(shorter);
        let rest = ranked(shorter);
        assert(s =~= shorter.push(last));
        assert(s.to_multiset() =~= shorter.to_multiset().insert(last));
        if last.viable() {
            let at = insertion_point(rest, last);
            lemma_insertion_point_splits(rest, last);
            lemma_insert_keeps_order(rest, last);
            to_multiset_insert(rest, at, last);
            assert(ranked(s).to_multiset() =~= rest.to_multiset().insert(last));
        }
    }
}

/// The member at position `p` of `s` goes before the one at position `q`: its
/// cost is lower, or the same and it stands earlier.
pub open spec fn precedes(s: Seq<Individual>, p: int, q: int) -> bool {
    s[p].rank() < s[q].rank() || (s[p].rank() == s[q].rank() && p < q)
}

/// `order` tells for each member of `r` the position in `s` that it comes
/// from: the positions of the viable members of `s`, each once, so that every
/// position listed goes before the next.
pub open spec fn ranks_by(s: Seq<Individual>, order: Seq<int>, r: Seq<Individual>) -> bool {
    &&& order.len() == r.len()
    &&& forall|k: int|
        0 <= k < order.len() ==> 0 <= #[trigger] order[k] < s.len() && s[order[k]].viable() && r[k]
            == s[order[k]]
    &&& forall|p: int| 0 <= p < s.len() && (#[trigger] s[p]).viable() ==> order.contains(p)
    &&& forall|a: int, b: int|
        0 <= a < b < order.len() ==> precedes(s, #[trigger] order[a], #[trigger] order[b])
}

/// A viable last member that is put at its insertion point among the ranked
/// members before it comes from the last position, and the others from where
/// they came from.
proof fn lemma_ranks_by_insert(s: Seq<Individual>, before: Seq<int>, rest: Seq<Individual>, at: int)
    requires
        s.len() > 0,
        s.last().viable(),
        ranks_by(s.drop_last(), before, rest),
        0 <= at <= rest.len(),
        forall|k: int| 0 <= k < at ==> (#[trigger] rest[k]).rank() <= s.last().rank(),
        forall|k: int| at <= k < rest.len() ==> (#[trigger] rest[k]).rank() > s.last().rank(),
    ensures
        ranks_by(s, before.insert(at, s.len() - 1), rest.insert(at, s.last())),
{
    let shorter = s.drop_last();
    let last = s.last();
    let n = s.len() - 1;
    let order = before.insert(at, n);
    let r = rest.insert(at, last);
    assert forall|k: int| 0 <= k < order.len() implies 0 <= #[trigger] order[k] < s.len()
        && s[order[k]].viable() && r[k] == s[order[k]] by {
        if k < at {
            assert(order[k] == before[k] && r[k] == rest[k]);
            assert(shorter[before[k]] == s[before[k]]);
        } else if k > at {
            assert(order[k] == before[k - 1] && r[k] == rest[k - 1]);
            assert(shorter[before[k - 1]] == s[before[k - 1]]);
        }
    }
    assert forall|p: int| 0 <= p < s.len() && (#[trigger] s[p]).viable() implies order.contains(
        p,
    ) by {
        if p < n {
            assert(shorter[p] == s[p]);
            assert(before.contains(p));
            let k = choose|k: int| 0 <= k < before.len() && before[k] == p;
            if k < at {
                assert(order[k] == p);
            } else {
                assert(order[k + 1] == p);
            }
        } else {
            assert(order[at] == p);
        }
    }
    assert forall|a: int, b: int| 0 <= a < b < order.len() implies precedes(
        s,
        #[trigger] order[a],
        #[trigger] order[b],
    ) by {
        let pa = if a < at {
            a
        } else {
            a - 1
        };
        let pb = if b < at {
            b
        } else {
            b - 1
        };
        if a != at && b != at {
            assert(order[a] == before[pa] && order[b] == before[pb]);
            assert(precedes(shorter, before[pa], before[pb]));
            assert(shorter[before[pa]] == s[before[pa]]);
            assert(shorter[before[pb]] == s[before[pb]]);
        } else if a == at {
            assert(order[a] == n && order[b] == before[pb]);
            assert(rest[pb] == shorter[before[pb]]);
            assert(shorter[before[pb]] == s[before[pb]]);
            assert(rest[pb].rank() > last.rank());
        } else {
            assert(order[b] == n && order[a] == before[pa]);
            assert(rest[pa] == shorter[before[pa]]);
            assert(shorter[before[pa]] == s[before[pa]]);
            assert(rest[pa].rank() <= last.rank());
        }
    }
}

/// A last member that is not viable leaves the ranked members where they
/// came from.
proof fn lemma_ranks_by_skip(s: Seq<Individual>, before: Seq<int>, rest: Seq<Individual>)
    requires
        s.len() > 0,
        !s.last().viable(),
        ranks_by(s.drop_last(), before, rest),
    ensures
        ranks_by(s, before, rest),
{
    let shorter = s.drop_last();
    assert forall|k: int| 0 <= k < before.len() implies 0 <= #[trigger] before[k] < s.len()
        && s[before[k]].viable() && rest[k] == s[before[k]] by {
        assert(shorter[before[k]] == s[before[k]]);
    }
    assert forall|p: int| 0 <= p < s.len() && (#[trigger] s[p]).viable() implies before.contains(
        p,
    ) by {
        assert(shorter[p] == s[p]);
    }
    assert forall|a: int, b: int| 0 <= a < b < before.len() implies precedes(
        s,
        #[trigger] before[a],
        #[trigger] before[b],
    ) by {
        assert(precedes(shorter, before[a], before[b]));
        assert(shorter[before[a]] == s[before[a]]);
        assert(shorter[before[b]] == s[before[b]]);
    }
}

/// Ranking is a stable sort: it lists the viable members by cost, and those
/// of equal cost in the order in which they stand. Returns the position that
/// each ranked member comes from.
pub proof fn lemma_ranked_stable(s: Seq<Individual>) -> (order: Seq<int>)
    ensures
        ranks_by(s, order, ranked(s)),
    decreases s.len(),
{
    if s.len() == 0 {
        Seq::empty()
    } else {
        let shorter = s.drop_last();
        let last = s.last();
        let before = lemma_ranked_stable(shorter);
        let rest = ranked(shorter);
        if last.viable() {
            lemma_ranked(shorter);
            let at = insertion_point(rest, last);
            lemma_insertion_point_splits(rest, last);
            lemma_ranks_by_insert(s, before, rest, at);
            before.insert(at, s.len() - 1)
        } else {
            lemma_ranks_by_skip(s, before, rest);
            before
        }
    }
}

/// What is made into a population is well formed, holds no individual that
/// was not given, and none more often than it was given.
pub proof fn lemma_normalized(s: Seq<Individual>)
    ensures
        well_formed(normalized(s)),
        normalized(s).len() <= s.len(),
        forall|x: Individual| normalized(s).to_multiset().count(x) <= s.to_multiset().count(x),
        forall|i: int|
            0 <= i < normalized(s).len() ==> s.contains(#[trigger] normalized(s)[i]),
{
    broadcast use vstd::seq_lib::group_to_multiset_ensures;

    lemma_ranked(s);
    let r = ranked(s);
    let n = normalized(s);
    if r.len() > CAPACITY {
        assert forall|i: int, j: int| 0 <= i <= j < n.len() implies n[i].rank() <= n[j].rank() by {
            assert(n[i] == r[i] && n[j] == r[j]);
        }
        assert forall|i: int| 0 <= i < n.len() implies (#[trigger] n[i]).viable() by {
            assert(n[i] == r[i]);
        }
        lemma_take_counts(r, CAPACITY as int);
    }
    assert forall|x: Individual| n.to_multiset().count(x) <= s.to_multiset().count(x) by {
        assert(n.to_multiset().count(x) <= r.to_multiset().count(x));
        assert(r.to_multiset().count(x) <= s.to_multiset().count(x));
    }
    assert forall|i: int| 0 <= i < n.len() implies s.contains(#[trigger] n[i]) by {
        assert(n.contains(n[i]));
        assert(n.to_multiset().count(n[i]) > 0);
        assert(s.to_multiset().count(n[i]) > 0);
    }
}

/// A prefix holds no element more often than the whole sequence.
pub proof fn lemma_take_counts<A>(s: Seq<A>, n: int)
    requires
        0 <= n <= s.len(),
    ensures
        forall|x: A| s.take(n).to_multiset().count(x) <= s.to_multiset().count(x),
    decreases s.len() - n,
{
    broadcast use vstd::seq_lib::group_to_multiset_ensures;

    if n < s.len() {
        lemma_take_counts(s, n + 1);
        assert(s.take(n + 1) =~= s.take(n).push(s[n]));
    } else {
        assert(s.take(n) =~= s);
    }
}

/// The index that a random word selects among `len` members.
pub open spec fn drawn_index(word: u32, len: nat) -> int {
    word as int % len as int
}

/// `father` and `mother` were taken out of `before`, one after the other, and
/// `after` is what is left.
pub open spec fn paired_from(
    before: Seq<Individual>,
    father: Individual,
    mother: Individual,
    after: Seq<Individual>,
) -> bool {
    exists|i: int, j: int|
        0 <= i < before.len() && 0 <= j < before.len() - 1 && father == before[i] && mother
            == before.remove(i)[j] && after == #[trigger] before.remove(i).remove(j)
}

/// A bounded collection of individuals in ascending order of cost, with the
/// generator from which it draws its members at random.
pub struct Population {
    individuals: Vec<Individual>,
    rng: StdRng,
}

impl View for Population {
    type V = Seq<Individual>;

    closed spec fn view(&self) -> Seq<Individual> {
        self.individuals@
    }
}

/// The viable members of `individuals` in ascending order of cost.
fn rank_all(individuals: Vec<Individual>) -> (out: Vec<Individual>)
    ensures
        out@ == ranked(individuals@),
{
    let mut out: Vec<Individual> = Vec::new();
    let mut i: usize = 0;
    while i < individuals.len()
        invariant
            i <= individuals.len(),
            out@ == ranked(individuals@.take(i as int)),
        decreases individuals.len() - i,
    {
        let newcomer = individuals[i];
        proof {
            assert(individuals@.take(i + 1).drop_last() =~= individuals@.take(i as int));
            assert(individuals@.take(i + 1).last() == newcomer);
        }
        if newcomer.is_viable() {
            let rank: i64 = newcomer.rank_key();
            let mut at: usize = out.len();
            while at > 0 && out[at - 1].rank_key() > rank
                invariant
                    at <= out.len(),
                    rank == newcomer.rank(),
                    forall|k: int| at <= k < out.len() ==> (#[trigger] out@[k]).rank() > rank,
                decreases at,
            {
                at = at - 1;
            }
            proof {
                lemma_insertion_point(out@, newcomer, at as int);
            }
            out.insert(at, newcomer);
        }
        i = i + 1;
    }
    assert(individuals@.take(i as int) =~= individuals@);
    out
}

impl Population {
    /// The members are in ascending order of cost, every cost is finite, and
    /// they are at most `CAPACITY`.
    pub open spec fn wf(&self) -> bool {
        well_formed(self@)
    }

    /// What a population keeps of `individuals`: those with a finite cost, in
    /// ascending order of cost, cut after the first `CAPACITY`.
    pub fn sorted(individuals: Vec<Individual>) -> (kept: Vec<Individual>)
        ensures
            kept@ == normalized(individuals@),
            well_formed(kept@),
    {
        proof {
            lemma_normalized(individuals@);
        }
        let mut kept = rank_all(individuals);
        kept.truncate(CAPACITY);
        kept
    }

    /// Number of members of `individuals` that a population would drop for a
    /// cost that is not finite.
    pub fn unviable(individuals: &Vec<Individual>) -> (count: usize)
        ensures
            count == unviable_count(individuals@),
    {
        let mut count: usize = 0;
        let mut i: usize = 0;
        while i < individuals.len()
            invariant
                i <= individuals.len(),
                count == unviable_count(individuals@.take(i as int)),
                count <= i,
            decreases individuals.len() - i,
        {
            proof {
                assert(individuals@.take(i + 1).drop_last() =~= individuals@.take(i as int));
            }
            if !individuals[i].is_viable() {
                count = count + 1;
            }
            i = i + 1;
        }
        assert(individuals@.take(i as int) =~= individuals@);
        count
    }

    /// The population made of `individuals`, with a generator seeded with
    /// `seed`.
    pub fn from_individuals(individuals: Vec<Individual>, seed: u64) -> (population: Population)
        ensures
            population@ == normalized(individuals@),
            population.wf(),
    {
        let kept = Population::sorted(individuals);
        Population { individuals: kept, rng: seeded(seed) }
    }

    /// Number of members.
    pub fn len(&self) -> (len: usize)
        ensures
            len == self@.len(),
    {
        self.individuals.len()
    }

    /// The population made of the members of both. It keeps the generator of
    /// `self`.
    pub fn merge(self, other: Population) -> (merged: Population)
        ensures
            merged@ == normalized(self@ + other@),
            merged.wf(),
    {
        let Population { individuals, rng } = self;
        let Population { individuals: others, rng: _ } = other;
        let mut all = individuals;
        let mut others = others;
        all.append(&mut others);
        let kept = Population::sorted(all);
        Population { individuals: kept, rng }
    }

    /// The `n` fittest members, all members where there are fewer. The
    /// generator is a copy of that of `self`, in the same state.
    pub fn get_nth_bests(&self, n: usize) -> (bests: Population)
        requires
            self.wf(),
        ensures
            bests@ == self@.take(if n < self@.len() { n as int } else { self@.len() as int }),
            bests.wf(),
    {
        let count: usize = if n < self.individuals.len() {
            n
        } else {
            self.individuals.len()
        };
        let mut firsts: Vec<Individual> = Vec::new();
        let mut i: usize = 0;
        while i < count
            invariant
                i <= count <= self.individuals.len(),
                firsts@ == self.individuals@.take(i as int),
            decreases count - i,
        {
            firsts.push(self.individuals[i]);
            proof {
                assert(self.individuals@.take(i + 1) =~= self.individuals@.take(i as int).push(
                    self.individuals@[i as int],
                ));
            }
            i = i + 1;
        }
        proof {
            lemma_prefix_well_formed(self.individuals@, count as int);
        }
        Population { individuals: firsts, rng: forked(&self.rng) }
    }

    /// The fittest member, if there is any member.
    pub fn get_best(&self) -> (best: Option<&Individual>)
        ensures
            self@.len() == 0 ==> best is None,
            self@.len() > 0 ==> best == Some(&self@[0]),
    {
        if self.individuals.len() == 0 {
            None
        } else {
            Some(&self.individuals[0])
        }
    }

    /// The member that a random word selects.
    pub fn individual_at(&self, word: u32) -> (chosen: Individual)
        requires
            self@.len() > 0,
        ensures
            chosen == self@[drawn_index(word, self@.len())],
    {
        let index: usize = word as usize % self.individuals.len();
        self.individuals[index]
    }

    /// Takes out the member that a random word selects, and returns it.
    pub fn pop_individual_at(&mut self, word: u32) -> (taken: Individual)
        requires
            old(self).wf(),
            old(self)@.len() > 0,
        ensures
            taken == old(self)@[drawn_index(word, old(self)@.len())],
            final(self)@ == old(self)@.remove(drawn_index(word, old(self)@.len())),
            final(self).wf(),
    {
        let index: usize = word as usize % self.individuals.len();
        proof {
            lemma_remove_well_formed(self.individuals@, index as int);
        }
        self.individuals.remove(index)
    }

    /// Takes out a member chosen uniformly at random, and returns it.
    pub fn pop_random_individual(&mut self) -> (taken: Individual)
        requires
            old(self).wf(),
            old(self)@.len() > 0,
        ensures
            exists|i: int|
                0 <= i < old(self)@.len() && taken == old(self)@[i] && final(self)@
                    == #[trigger] old(self)@.remove(i),
            final(self).wf(),
    {
        let word: u32 = next_word(&mut self.rng);
        self.pop_individual_at(word)
    }

    /// A member chosen uniformly at random. The population keeps it.
    pub fn get_random_individual(&mut self) -> (chosen: Individual)
        requires
            old(self)@.len() > 0,
        ensures
            final(self)@ == old(self)@,
            old(self)@.contains(chosen),
    {
        let word: u32 = next_word(&mut self.rng);
        self.individual_at(word)
    }

    /// Takes out two members chosen uniformly at random, the father first and
    /// the mother from those that are left, unless there are fewer than two
    /// members.
    pub fn pop_parents(&mut self) -> (parents: Option<(Individual, Individual)>)
        requires
            old(self).wf(),
        ensures
            old(self)@.len() < 2 ==> parents is None && final(self)@ == old(self)@,
            old(self)@.len() >= 2 ==> (parents matches Some(pair) && paired_from(
                old(self)@,
                pair.0,
                pair.1,
                final(self)@,
            )),
            final(self).wf(),
    {
        if self.individuals.len() < 2 {
            return None;
        }
        let father = self.pop_random_individual();
        let mother = self.pop_random_individual();
        Some((father, mother))
    }

    /// Takes out pairs of parents until fewer than two members are left.
    /// There are as many pairs as half the members, rounded down, and no
    /// member is in two pairs, or in a pair and left behind.
    pub fn pop_all_parents(&mut self) -> (pairs: Vec<(Individual, Individual)>)
        requires
            old(self).wf(),
        ensures
            pairs@.len() == old(self)@.len() / 2,
            final(self)@.len() == old(self)@.len() % 2,
            final(self).wf(),
            old(self)@.to_multiset() == parents_in(pairs@).add(final(self)@.to_multiset()),
            forall|k: int|
                0 <= k < pairs@.len() ==> old(self)@.contains((#[trigger] pairs@[k]).0)
                    && old(self)@.contains(pairs@[k].1),
    {
        broadcast use vstd::seq_lib::group_to_multiset_ensures;

        let mut pairs: Vec<(Individual, Individual)> = Vec::new();
        assert(parents_in(pairs@).add(self@.to_multiset()) =~= self@.to_multiset());
        loop
            invariant_except_break
                self.wf(),
                2 * pairs@.len() + self@.len() == old(self)@.len(),
                old(self)@.to_multiset() == parents_in(pairs@).add(self@.to_multiset()),
            ensures
                self.wf(),
                self@.len() < 2,
                2 * pairs@.len() + self@.len() == old(self)@.len(),
                old(self)@.to_multiset() == parents_in(pairs@).add(self@.to_multiset()),
            decreases self@.len(),
        {
            let ghost before = self@;
            match self.pop_parents() {
                None => {
                    break ;
                },
                Some(pair) => {
                    proof {
                        lemma_paired_from(before, pair.0, pair.1, self@);
                        assert(pairs@.push(pair).drop_last() =~= pairs@);
                        assert(parents_in(pairs@.push(pair)).add(self@.to_multiset())
                            =~= parents_in(pairs@).add(before.to_multiset()));
                    }
                    pairs.push(pair);
                },
            }
        }
        proof {
            assert forall|k: int| 0 <= k < pairs@.len() implies old(self)@.contains(
                (#[trigger] pairs@[k]).0,
            ) && old(self)@.contains(pairs@[k].1) by {
                lemma_parents_in(pairs@, k);
                assert(old(self)@.to_multiset().count(pairs@[k].0) > 0);
                assert(old(self)@.to_multiset().count(pairs@[k].1) > 0);
            }
        }
        pairs
    }

    /// A population of `size` genomes drawn at random and costed by
    /// `evaluator` in one batch. Whatever `evaluator` returns is made into
    /// the population.
    pub fn new<W>(
        size: usize,
        model: Model,
        dir: &'static str,
        max_kp: u64,
        max_ki: u64,
        max_kd: u64,
        seed: u64,
        evaluator: &mut W,
    ) -> (population: Population) where W: Work<Input = Genome, Output = Individual>
        ensures
            population.wf(),
            exists|genomes: Seq<Genome>, individuals: Seq<Individual>|
                #![trigger old(evaluator).may_return(genomes, individuals)]
                drawn_batch(size, model, dir, max_kp, max_ki, max_kd, seed, genomes) && old(
                    evaluator,
                ).may_return(genomes, individuals) && population@ == normalized(individuals),
    {
        let mut generator = NewRandomPopulation::new(model, dir, max_kp, max_ki, max_kd, seed);
        let genomes = generator.work(units(size));
        let ghost drawn = genomes@;
        let individuals = evaluator.work(genomes);
        let ghost costed = individuals@;
        assert(drawn_batch(size, model, dir, max_kp, max_ki, max_kd, seed, drawn));
        assert(old(evaluator).may_return(drawn, costed));
        Population::from_individuals(individuals, seed)
    }

    /// A population of `size` genomes drawn at random and costed by a pool of
    /// `works` copies of `evaluator`. The genomes are drawn chunk by chunk, as
    /// they are costed. Whatever the pool returns is made into the population.
    pub fn new_parallel<W>(
        size: usize,
        works: usize,
        model: Model,
        dir: &'static str,
        max_kp: u64,
        max_ki: u64,
        max_kd: u64,
        seed: u64,
        evaluator: &W,
    ) -> (population: Population) where W: Work<Input = Genome, Output = Individual> + Clone
        ensures
            population.wf(),
            exists|genomes: Seq<Genome>, copy: W, individuals: Seq<Individual>|
                #![trigger may_pool(works as nat, copy, genomes, individuals)]
                drawn_batch(size, model, dir, max_kp, max_ki, max_kd, seed, genomes) && cloned(
                    *evaluator,
                    copy,
                ) && may_pool(works as nat, copy, genomes, individuals) && population@
                    == normalized(individuals),
    {
        let generator = NewRandomPopulation::new(model, dir, max_kp, max_ki, max_kd, seed);
        let batch = units(size);
        let ghost blank = batch@;
        let genomes = work_pool(works, batch, generator);
        let ghost drawn = genomes@;
        proof {
            lemma_pooled_genomes(works as nat, generator, blank, drawn);
        }
        let copy = evaluator.clone();
        let ghost pooled = copy;
        let individuals = work_pool(works, genomes, copy);
        let ghost costed = individuals@;
        assert(drawn_batch(size, model, dir, max_kp, max_ki, max_kd, seed, drawn));
        assert(may_pool(works as nat, pooled, drawn, costed));
        Population::from_individuals(individuals, seed)
    }
}

impl Clone for Population {
    /// A population with the same members whose generator is in the same
    /// state.
    fn clone(&self) -> (copy: Population)
        ensures
            copy@ == self@,
    {
        let mut members: Vec<Individual> = Vec::new();
        let mut i: usize = 0;
        while i < self.individuals.len()
            invariant
                i <= self.individuals.len(),
                members@ == self.individuals@.take(i as int),
            decreases self.individuals.len() - i,
        {
            members.push(self.individuals[i]);
            proof {
                assert(self.individuals@.take(i + 1) =~= self.individuals@.take(i as int).push(
                    self.individuals@[i as int],
                ));
            }
            i = i + 1;
        }
        assert(self.individuals@.take(i as int) =~= self.individuals@);
        Population { individuals: members, rng: forked(&self.rng) }
    }
}

/// A batch of `size` units.
fn units(size: usize) -> (batch: Vec<()>)
    ensures
        batch@.len() == size,
{
    let mut batch: Vec<()> = Vec::new();
    let mut i: usize = 0;
    while i < size
        invariant
            i <= size,
            batch@.len() == i,
        decreases size - i,
    {
        batch.push(());
        i = i + 1;
    }
    batch
}

/// A pair that is taken out leaves two members fewer, and each member is
/// either the father, the mother, or left behind: none is counted twice.
pub proof fn lemma_paired_from(
    before: Seq<Individual>,
    father: Individual,
    mother: Individual,
    after: Seq<Individual>,
)
    requires
        paired_from(before, father, mother, after),
    ensures
        after.len() + 2 == before.len(),
        before.to_multiset() == after.to_multiset().insert(mother).insert(father),
        before.contains(father),
        before.contains(mother),
{
    let (i, j) = choose|i: int, j: int|
        0 <= i < before.len() && 0 <= j < before.len() - 1 && father == before[i] && mother
            == before.remove(i)[j] && after == #[trigger] before.remove(i).remove(j);
    let mid = before.remove(i);
    to_multiset_remove(before, i);
    to_multiset_remove(mid, j);
    before.to_multiset_ensures();
    mid.to_multiset_ensures();
    assert(before.contains(father));
    assert(mid.contains(mother));
    assert(mid.to_multiset() =~= after.to_multiset().insert(mother));
    assert(before.to_multiset() =~= mid.to_multiset().insert(father));
    assert(before.to_multiset().count(mother) > 0);
}

/// The fathers and mothers of `pairs`, each as often as it is one.
pub open spec fn parents_in(pairs: Seq<(Individual, Individual)>) -> Multiset<Individual>
    decreases pairs.len(),
{
    if pairs.len() == 0 {
        Multiset::empty()
    } else {
        parents_in(pairs.drop_last()).insert(pairs.last().0).insert(pairs.last().1)
    }
}

/// Every father and mother of `pairs` is among the parents.
pub proof fn lemma_parents_in(pairs: Seq<(Individual, Individual)>, k: int)
    requires
        0 <= k < pairs.len(),
    ensures
        parents_in(pairs).count(pairs[k].0) > 0,
        parents_in(pairs).count(pairs[k].1) > 0,
    decreases pairs.len(),
{
    if k < pairs.len() - 1 {
        lemma_parents_in(pairs.drop_last(), k);
    }
}

/// A prefix of a well-formed sequence is well formed.
pub proof fn lemma_prefix_well_formed(s: Seq<Individual>, n: int)
    requires
        well_formed(s),
        0 <= n <= s.len(),
    ensures
        well_formed(s.take(n)),
{
    let t = s.take(n);
    assert forall|i: int, j: int| 0 <= i <= j < t.len() implies t[i].rank() <= t[j].rank() by {
        assert(t[i] == s[i] && t[j] == s[j]);
    }
    assert forall|i: int| 0 <= i < t.len() implies (#[trigger] t[i]).viable() by {
        assert(t[i] == s[i]);
    }
}

/// Taking a member out of a well-formed sequence leaves it well formed.
pub proof fn lemma_remove_well_formed(s: Seq<Individual>, at: int)
    requires
        well_formed(s),
        0 <= at < s.len(),
    ensures
        well_formed(s.remove(at)),
{
    let t = s.remove(at);
    assert forall|i: int, j: int| 0 <= i <= j < t.len() implies t[i].rank() <= t[j].rank() by {
        let a = if i < at {
            i
        } else {
            i + 1
        };
        let b = if j < at {
            j
        } else {
            j + 1
        };
        assert(t[i] == s[a] && t[j] == s[b]);
    }
    assert forall|i: int| 0 <= i < t.len() implies (#[trigger] t[i]).viable() by {
        let a = if i < at {
            i
        } else {
            i + 1
        };
        assert(t[i] == s[a]);
    }
}

/// A worker that draws genomes at random: every gain uniformly between zero
/// and its maximum. It makes one genome for each unit of its batch.
pub struct NewRandomPopulation {
    id: usize,
    model: Model,
    dir: &'static str,
    max_kp: u64,
    max_ki: u64,
    max_kd: u64,
    rng: StdRng,
    seed: u64,
}

/// `genome` is one that a worker with these settings may draw.
pub open spec fn drawn_from(
    model: Model,
    dir: &'static str,
    max_kp: u64,
    max_ki: u64,
    max_kd: u64,
    seed: u64,
    genome: Genome,
) -> bool {
    &&& share_of(max_kp, genome.kp)
    &&& share_of(max_ki, genome.ki)
    &&& share_of(max_kd, genome.kd)
    &&& genome.model == model
    &&& genome.dir == dir
    &&& genome.seed == seed
}

/// `genomes` is a batch of `size` genomes, each of them one that a worker
/// with these settings may draw.
pub open spec fn drawn_batch(
    size: usize,
    model: Model,
    dir: &'static str,
    max_kp: u64,
    max_ki: u64,
    max_kd: u64,
    seed: u64,
    genomes: Seq<Genome>,
) -> bool {
    genomes.len() == size && forall|i: int|
        0 <= i < genomes.len() ==> drawn_from(
            model,
            dir,
            max_kp,
            max_ki,
            max_kd,
            seed,
            #[trigger] genomes[i],
        )
}

/// What a pool of copies of a worker returns for a batch of units is one
/// genome for each unit, each of them one that the worker may draw.
pub proof fn lemma_pooled_genomes(
    workers: nat,
    generator: NewRandomPopulation,
    batch: Seq<()>,
    genomes: Seq<Genome>,
)
    requires
        may_pool(workers, generator, batch, genomes),
    ensures
        genomes.len() == batch.len(),
        forall|i: int| 0 <= i < genomes.len() ==> generator.draws(#[trigger] genomes[i]),
{
    if workers > 0 {
        let (copies, ready, batches) = choose|
            copies: Seq<NewRandomPopulation>,
            ready: Seq<NewRandomPopulation>,
            batches: Seq<Vec<Genome>>,
        |
            #[trigger] pool_served(workers, generator, batch, copies, ready, batches) && genomes
                == joined(batches);
        assert forall|k: int| 0 <= k < batches.len() implies (#[trigger] batches[k])@.len()
            == chunk_of(batch, workers, k).len() && forall|j: int|
            0 <= j < batches[k]@.len() ==> generator.draws(#[trigger] batches[k]@[j]) by {
            assert(chunk_served(
                generator,
                k,
                copies[k],
                ready[k],
                chunk_of(batch, workers, k),
                batches[k]@,
            ));
            assert(copies[k].same_settings(&generator));
            assert(ready[k].same_settings(&generator));
        }
        lemma_joined_length(batch, workers, batches);
        lemma_joined_members(batches, |genome: Genome| generator.draws(genome));
    }
}

impl NewRandomPopulation {
    /// The number of the chunk that the worker was last told.
    pub closed spec fn chunk(&self) -> usize {
        self.id
    }

    /// `genome` is one that this worker may draw.
    pub closed spec fn draws(&self, genome: Genome) -> bool {
        drawn_from(
            self.model,
            self.dir,
            self.max_kp,
            self.max_ki,
            self.max_kd,
            self.seed,
            genome,
        )
    }

    /// Two workers draw with the same settings.
    pub closed spec fn same_settings(&self, other: &NewRandomPopulation) -> bool {
        &&& self.model == other.model
        &&& self.dir == other.dir
        &&& self.max_kp == other.max_kp
        &&& self.max_ki == other.max_ki
        &&& self.max_kd == other.max_kd
        &&& self.seed == other.seed
    }

    /// A worker for chunk 0 whose generator is seeded with `seed`.
    pub fn new(
        model: Model,
        dir: &'static str,
        max_kp: u64,
        max_ki: u64,
        max_kd: u64,
        seed: u64,
    ) -> (worker: NewRandomPopulation)
        ensures
            worker.chunk() == 0,
            forall|genome: Genome|
                worker.draws(genome) == drawn_from(model, dir, max_kp, max_ki, max_kd, seed, genome),
    {
        NewRandomPopulation { id: 0, model, dir, max_kp, max_ki, max_kd, rng: seeded(seed), seed }
    }
}

impl Clone for NewRandomPopulation {
    /// A worker with the same settings whose generator is in the same state.
    fn clone(&self) -> (copy: NewRandomPopulation)
        ensures
            copy.same_settings(self),
            copy.chunk() == self.chunk(),
    {
        NewRandomPopulation {
            id: self.id,
            model: self.model,
            dir: self.dir,
            max_kp: self.max_kp,
            max_ki: self.max_ki,
            max_kd: self.max_kd,
            rng: forked(&self.rng),
            seed: self.seed,
        }
    }
}

impl Work for NewRandomPopulation {
    type Input = ();

    type Output = Genome;

    /// One genome for each unit of the batch, each of them one that the
    /// worker may draw.
    open spec fn may_return(&self, input: Seq<()>, output: Seq<Genome>) -> bool {
        output.len() == input.len() && forall|i: int|
            0 <= i < output.len() ==> self.draws(#[trigger] output[i])
    }

    /// The worker keeps its settings and notes the chunk.
    open spec fn may_become(&self, id: usize, after: &NewRandomPopulation) -> bool {
        after.same_settings(self) && after.chunk() == id
    }

    /// Draws one genome for each unit of `input`: its gains kp, ki and kd in
    /// turn.
    fn work(&mut self, input: Vec<()>) -> (genomes: Vec<Genome>)
        ensures
            genomes@.len() == input@.len(),
            forall|i: int| 0 <= i < genomes@.len() ==> old(self).draws(#[trigger] genomes@[i]),
            final(self).same_settings(old(self)),
            final(self).chunk() == old(self).chunk(),
    {
        let size: usize = input.len();
        let mut genomes: Vec<Genome> = Vec::new();
        let mut i: usize = 0;
        while i < size
            invariant
                i <= size,
                genomes@.len() == i,
                self.same_settings(old(self)),
                self.chunk() == old(self).chunk(),
                forall|k: int| 0 <= k < genomes@.len() ==> old(self).draws(#[trigger] genomes@[k]),
            decreases size - i,
        {
            let kp = random_gain(self.max_kp, &mut self.rng);
            let ki = random_gain(self.max_ki, &mut self.rng);
            let kd = random_gain(self.max_kd, &mut self.rng);
            genomes.push(Genome { kp, ki, kd, model: self.model, dir: self.dir, seed: self.seed });
            i = i + 1;
        }
        genomes
    }

    /// Notes the chunk and starts the generator anew for it, seeded with the
    /// seed of the run plus the number of the chunk, so that no two chunks
    /// draw the same genomes.
    fn set_id(&mut self, id: usize)
        ensures
            final(self).chunk() == id,
            final(self).same_settings(old(self)),
    {
        self.id = id;
        self.rng = seeded(self.seed.wrapping_add(id as u64));
    }
}

} // verus!
