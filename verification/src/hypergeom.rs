//! The integer side of the hypergeometric test: hit counts, the 2x2 table of
//! a test, and the way in which its p-value is to be evaluated.

use crate::gene_set::{hash_names, GeneSet};
use statrs::distribution::Hypergeometric;
use vstd::prelude::*;
use vstd::seq_lib::seq_to_set_is_finite;

verus! {

/// The number of distinct names that occur both in `genes` and in `targets`.
pub open spec fn shared_count(genes: Seq<Seq<char>>, targets: Seq<Seq<char>>) -> nat {
    genes.to_set().intersect(targets.to_set()).len()
}

/// For each gene list, the number of distinct genes that it shares with the
/// target genes.
pub fn count_hits(gene_set_list: &[Vec<String>], target_genes: &[String]) -> (hits: Vec<u64>)
    ensures
        hits.len() == gene_set_list.len(),
        forall|i: int|
            0 <= i < hits.len() ==> #[trigger] hits[i] == shared_count(
                gene_set_list[i].deep_view(),
                target_genes.deep_view(),
            ),
        forall|i: int|
            0 <= i < hits.len() ==> #[trigger] hits[i] <= gene_set_list[i].len() && hits[i]
                <= target_genes.len(),
{
    let targets = hash_names(target_genes);
    let mut hits: Vec<u64> = Vec::new();
    let mut i: usize = 0;
    proof {
        seq_to_set_is_finite(target_genes.deep_view());
        target_genes.deep_view().lemma_cardinality_of_set();
    }
    while i < gene_set_list.len()
        invariant
            i <= gene_set_list.len(),
            hits.len() == i,
            targets@ == target_genes.deep_view().to_set(),
            targets@.finite(),
            targets@.len() <= target_genes.len(),
            forall|j: int|
                0 <= j < i ==> #[trigger] hits[j] == shared_count(
                    gene_set_list[j].deep_view(),
                    target_genes.deep_view(),
                ),
            forall|j: int|
                0 <= j < i ==> #[trigger] hits[j] <= gene_set_list[j].len() && hits[j]
                    <= target_genes.len(),
        decreases gene_set_list.len() - i,
    {
        let list = gene_set_list[i].as_slice();
        let set = GeneSet::from_genes(list);
        let shared = set.count_shared(&targets);
        proof {
            assert(list.deep_view() =~= gene_set_list[i as int].deep_view());
            set.lemma_len();
            list.deep_view().lemma_cardinality_of_set();
            assert(set@.intersect(targets@) =~= targets@.intersect(set@));
            vstd::set_lib::lemma_len_intersect(targets@, set@);
        }
        hits.push(shared);
        i += 1;
    }
    hits
}

/// For each gene set, the number of its genes that are target genes.
pub fn count_hits_hash(gene_set_list: Vec<&GeneSet>, target_genes: &[String]) -> (hits: Vec<u64>)
    requires
        forall|i: int| 0 <= i < gene_set_list.len() ==> (#[trigger] gene_set_list[i]).wf(),
    ensures
        hits.len() == gene_set_list.len(),
        forall|i: int|
            0 <= i < hits.len() ==> #[trigger] hits[i] == gene_set_list[i]@.intersect(
                target_genes.deep_view().to_set(),
            ).len(),
        forall|i: int|
            0 <= i < hits.len() ==> #[trigger] hits[i] <= gene_set_list[i]@.len() && hits[i]
                <= target_genes.len(),
{
    let targets = hash_names(target_genes);
    let mut hits: Vec<u64> = Vec::new();
    let mut i: usize = 0;
    proof {
        seq_to_set_is_finite(target_genes.deep_view());
        target_genes.deep_view().lemma_cardinality_of_set();
    }
    while i < gene_set_list.len()
        invariant
            i <= gene_set_list.len(),
            hits.len() == i,
            targets@ == target_genes.deep_view().to_set(),
            targets@.finite(),
            targets@.len() <= target_genes.len(),
            forall|j: int| 0 <= j < gene_set_list.len() ==> (#[trigger] gene_set_list[j]).wf(),
            forall|j: int|
                0 <= j < i ==> #[trigger] hits[j] == gene_set_list[j]@.intersect(
                    target_genes.deep_view().to_set(),
                ).len(),
            forall|j: int|
                0 <= j < i ==> #[trigger] hits[j] <= gene_set_list[j]@.len() && hits[j]
                    <= target_genes.len(),
        decreases gene_set_list.len() - i,
    {
        let set: &GeneSet = gene_set_list[i];
        let shared = set.count_shared(&targets);
        proof {
            set.lemma_len();
            assert(set@.intersect(targets@) =~= targets@.intersect(set@));
            vstd::set_lib::lemma_len_intersect(targets@, set@);
        }
        hits.push(shared);
        i += 1;
    }
    hits
}

/// The counts of a batch of hypergeometric tests of gene lists against one
/// target list within one universe.
#[derive(Clone, Debug)]
pub struct HypergeomCounts {
    /// For each gene list, the distinct genes it shares with the targets.
    pub hits: Vec<u64>,
    /// The length of each gene list.
    pub gene_set_lengths: Vec<u64>,
    /// The length of the target list.
    pub trials: u64,
    /// The length of the universe list.
    pub gene_universe_length: u64,
}

/// Counts what the tests of `gene_sets` against `target_genes` within
/// `gene_universe` need: the hits of each list, the length of each list, the
/// number of targets and the size of the universe.
pub fn hypergeom_helper(
    target_genes: &[String],
    gene_sets: &[Vec<String>],
    gene_universe: &[String],
) -> (counts: HypergeomCounts)
    ensures
        counts.gene_universe_length == gene_universe.len(),
        counts.trials == target_genes.len(),
        counts.hits.len() == gene_sets.len(),
        counts.gene_set_lengths.len() == gene_sets.len(),
        forall|i: int|
            0 <= i < gene_sets.len() ==> #[trigger] counts.gene_set_lengths[i]
                == gene_sets[i].len(),
        forall|i: int|
            0 <= i < gene_sets.len() ==> #[trigger] counts.hits[i] == shared_count(
                gene_sets[i].deep_view(),
                target_genes.deep_view(),
            ),
        forall|i: int|
            0 <= i < gene_sets.len() ==> #[trigger] counts.hits[i] <= counts.gene_set_lengths[i]
                && counts.hits[i] <= counts.trials,
{
    let gene_universe_length = gene_universe.len() as u64;
    let trials = target_genes.len() as u64;
    let mut gene_set_lengths: Vec<u64> = Vec::new();
    let mut i: usize = 0;
    while i < gene_sets.len()
        invariant
            i <= gene_sets.len(),
            gene_set_lengths.len() == i,
            forall|j: int| 0 <= j < i ==> #[trigger] gene_set_lengths[j] == gene_sets[j].len(),
        decreases gene_sets.len() - i,
    {
        gene_set_lengths.push(gene_sets[i].len() as u64);
        i += 1;
    }
    let hits = count_hits(gene_sets, target_genes);
    HypergeomCounts { hits, gene_set_lengths, trials, gene_universe_length }
}

/// The 2x2 table of one test, by membership in the target list (`a1` in, `a0`
/// out) and in the gene set (`b1` in, `b0` out).
#[derive(Clone, Copy, Debug, PartialEq, Eq)]
pub struct ContingencyTable {
    /// In the gene set and a target: the hits.
    pub a1_b1: u64,
    /// In the gene set, no target.
    pub a0_b1: u64,
    /// A target outside the gene set.
    pub a1_b0: u64,
    /// Neither in the gene set nor a target.
    pub a0_b0: u64,
}

/// The counts can be those of one test: the hits are within the gene set and
/// within the targets, and the universe has room for both.
pub open spec fn counts_fit(
    hits: u64,
    gene_set_length: u64,
    trials: u64,
    gene_universe_length: u64,
) -> bool {
    &&& hits <= gene_set_length
    &&& hits <= trials
    &&& gene_set_length + trials - hits <= gene_universe_length
}

impl ContingencyTable {
    /// The table of a test with the given counts, if they fit together; its
    /// four cells then add up to the universe.
    pub fn from_counts(
        hits: u64,
        gene_set_length: u64,
        trials: u64,
        gene_universe_length: u64,
    ) -> (table: Option<ContingencyTable>)
        ensures
            table.is_some() == counts_fit(hits, gene_set_length, trials, gene_universe_length),
            table matches Some(t) ==> {
                &&& t.a1_b1 == hits
                &&& t.a0_b1 == gene_set_length - hits
                &&& t.a1_b0 == trials - hits
                &&& t.a0_b0 == gene_universe_length - gene_set_length - trials + hits
                &&& t.a1_b1 + t.a0_b1 + t.a1_b0 + t.a0_b0 == gene_universe_length
            },
    {
        if hits > gene_set_length || hits > trials || gene_set_length > gene_universe_length {
            return None;
        }
        let outside = gene_universe_length - gene_set_length;
        let missed = trials - hits;
        if missed > outside {
            return None;
        }
        Some(
            ContingencyTable {
                a1_b1: hits,
                a0_b1: gene_set_length - hits,
                a1_b0: missed,
                a0_b0: outside - missed,
            },
        )
    }
}

/// How the p-value of a test is to be evaluated.
#[derive(Clone, Copy, Debug, PartialEq, Eq)]
pub enum PvalMethod {
    /// There is no hit: the p-value is one.
    One,
    /// Every gene of the set is a hit: the tail is its single last term, to be
    /// evaluated in logarithms.
    LogSpace,
    /// The sum of the probability mass at `lower..=upper` of the distribution
    /// with the given parameters, which are valid ones.
    TailSum { population: u64, successes: u64, draws: u64, lower: u64, upper: u64 },
}

/// Why a p-value cannot be evaluated.
#[derive(Clone, Copy, Debug, PartialEq, Eq)]
pub enum PvalError {
    /// Successes and failures together exceed what a `u64` holds.
    PopulationOverflow,
    /// More is drawn than the population holds.
    TooManyDraws,
}

/// The method for `q` hits among `k` draws from `m` successes and `n`
/// failures.
pub open spec fn pval_method_of(q: u64, m: u64, n: u64, k: u64) -> Result<PvalMethod, PvalError> {
    if q == 0 {
        Ok(PvalMethod::One)
    } else if m + n > u64::MAX {
        Err(PvalError::PopulationOverflow)
    } else if q == m && q <= k {
        Ok(PvalMethod::LogSpace)
    } else if k > m + n {
        Err(PvalError::TooManyDraws)
    } else {
        Ok(
            PvalMethod::TailSum {
                population: (m + n) as u64,
                successes: m,
                draws: k,
                lower: q,
                upper: if k <= m {
                    k
                } else {
                    m
                },
            },
        )
    }
}

/// `statrs::distribution::Hypergeometric::new` accepts a population, a number
/// of successes and a number of draws exactly when neither the successes nor
/// the draws exceed the population.
#[verifier::external_body]
fn distribution_accepts(population: u64, successes: u64, draws: u64) -> (accepted: bool)
    ensures
        accepted == (successes <= population && draws <= population),
{
    Hypergeometric::new(population, successes, draws).is_ok()
}

/// Chooses how to evaluate the probability of at least `q` hits among `k`
/// draws without replacement from `m` successes and `n` failures.
pub fn pval_method(q: u64, m: u64, n: u64, k: u64) -> (method: Result<PvalMethod, PvalError>)
    ensures
        method == pval_method_of(q, m, n, k),
        q == 0 ==> method == Ok::<PvalMethod, PvalError>(PvalMethod::One),
{
    if q == 0 {
        return Ok(PvalMethod::One);
    }
    let population = match m.checked_add(n) {
        Some(sum) => sum,
        None => {
            return Err(PvalError::PopulationOverflow);
        },
    };
    if q == m && q <= k {
        return Ok(PvalMethod::LogSpace);
    }
    if !distribution_accepts(population, m, k) {
        return Err(PvalError::TooManyDraws);
    }
    let upper = if k <= m {
        k
    } else {
        m
    };
    Ok(PvalMethod::TailSum { population, successes: m, draws: k, lower: q, upper })
}

/// The number of ways to choose `k` of `n` things.
pub open spec fn binomial(n: nat, k: nat) -> nat
    decreases n,
{
    if k == 0 {
        1
    } else if n == 0 {
        0
    } else {
        binomial((n - 1) as nat, (k - 1) as nat) + binomial((n - 1) as nat, k)
    }
}

/// The number of ways to draw `k` of `m` successes and `n` failures with
/// exactly `i` successes among them.
pub open spec fn ways_with(m: nat, n: nat, k: nat, i: nat) -> nat {
    if i <= k {
        binomial(m, i) * binomial(n, (k - i) as nat)
    } else {
        0
    }
}

/// The number of ways to draw `k` of `m` successes and `n` failures with at
/// least `from` and fewer than `to` successes among them.
pub open spec fn ways_between(m: nat, n: nat, k: nat, from: nat, to: nat) -> nat
    decreases to,
{
    if to <= from {
        0
    } else {
        ways_between(m, n, k, from, (to - 1) as nat) + ways_with(m, n, k, (to - 1) as nat)
    }
}

/// The exact p-value of `q` hits among `k` draws from `m` successes and `n`
/// failures is `tail_ways(q, m, n, k)` out of `binomial(m + n, k)`: the draws
/// with at least `q` and at most `min(k, m)` successes among all draws.
pub open spec fn tail_ways(q: nat, m: nat, n: nat, k: nat) -> nat {
    ways_between(
        m,
        n,
        k,
        q,
        if k <= m {
            k + 1
        } else {
            m + 1
        },
    )
}

/// There is no way to choose more than there is.
pub proof fn lemma_binomial_beyond(n: nat, k: nat)
    requires
        k > n,
    ensures
        binomial(n, k) == 0,
    decreases n,
{
    if n > 0 {
        lemma_binomial_beyond((n - 1) as nat, (k - 1) as nat);
        lemma_binomial_beyond((n - 1) as nat, k);
    }
}

/// There is a way to choose as many as there are, or fewer.
pub proof fn lemma_binomial_positive(n: nat, k: nat)
    requires
        k <= n,
    ensures
        binomial(n, k) > 0,
    decreases n,
{
    if k > 0 && n > 0 {
        lemma_binomial_positive((n - 1) as nat, (k - 1) as nat);
    }
}

/// A range of success counts can be split at any point in it.
pub proof fn lemma_ways_split(m: nat, n: nat, k: nat, from: nat, mid: nat, to: nat)
    requires
        from <= mid <= to,
    ensures
        ways_between(m, n, k, from, to) == ways_between(m, n, k, from, mid) + ways_between(
            m,
            n,
            k,
            mid,
            to,
        ),
    decreases to,
{
    if to > mid {
        lemma_ways_split(m, n, k, from, mid, (to - 1) as nat);
    }
}

/// No draw has more successes than there are successes or draws.
pub proof fn lemma_ways_beyond(m: nat, n: nat, k: nat, from: nat, to: nat)
    requires
        from > m || from > k,
    ensures
        ways_between(m, n, k, from, to) == 0,
    decreases to,
{
    if to > from {
        lemma_ways_beyond(m, n, k, from, (to - 1) as nat);
        if to - 1 <= k {
            lemma_binomial_beyond(m, (to - 1) as nat);
        }
    }
}

/// With one more success to draw from, a draw either leaves it out or takes it
/// together with one draw fewer from the rest.
proof fn lemma_ways_one_more_success(m: nat, n: nat, k: nat, to: nat)
    requires
        k >= 1,
        1 <= to <= k + 1,
    ensures
        ways_between(m + 1, n, k, 0, to) == ways_between(m, n, k, 0, to) + ways_between(
            m,
            n,
            (k - 1) as nat,
            0,
            (to - 1) as nat,
        ),
    decreases to,
{
    let i = (to - 1) as nat;
    if to == 1 {
        assert(ways_between(m + 1, n, k, 0, 0) == 0);
        assert(ways_between(m, n, k, 0, 0) == 0);
        assert(ways_with(m + 1, n, k, 0) == binomial(n, k)) by (nonlinear_arith)
            requires
                ways_with(m + 1, n, k, 0) == 1 * binomial(n, k),
        ;
        assert(ways_with(m, n, k, 0) == binomial(n, k)) by (nonlinear_arith)
            requires
                ways_with(m, n, k, 0) == 1 * binomial(n, k),
        ;
    } else {
        lemma_ways_one_more_success(m, n, k, i);
        let rest = binomial(n, (k - i) as nat);
        let with_it = binomial(m, (i - 1) as nat);
        let without_it = binomial(m, i);
        assert(binomial(m + 1, i) == with_it + without_it);
        assert((with_it + without_it) * rest == with_it * rest + without_it * rest)
            by (nonlinear_arith);
        assert(ways_with(m + 1, n, k, i) == (with_it + without_it) * rest);
        assert(ways_with(m, n, k, i) == without_it * rest);
        assert(ways_with(m, n, (k - 1) as nat, (i - 1) as nat) == with_it * rest);
    }
}

/// The draws of `k`, sorted by the number of successes among them, are all
/// the ways to choose `k` of the successes and failures together.
pub proof fn lemma_all_ways(m: nat, n: nat, k: nat)
    ensures
        ways_between(m, n, k, 0, k + 1) == binomial(m + n, k),
    decreases m,
{
    if m == 0 {
        lemma_ways_split(m, n, k, 0, 1, k + 1);
        lemma_ways_beyond(m, n, k, 1, k + 1);
        assert(ways_between(m, n, k, 0, 0) == 0);
        assert(ways_with(m, n, k, 0) == binomial(n, k)) by (nonlinear_arith)
            requires
                ways_with(m, n, k, 0) == 1 * binomial(n, k),
        ;
    } else if k == 0 {
        assert(ways_between(m, n, k, 0, 0) == 0);
        assert(ways_with(m, n, 0, 0) == 1) by (nonlinear_arith)
            requires
                ways_with(m, n, 0, 0) == 1 * 1,
        ;
    } else {
        let fewer = (m - 1) as nat;
        lemma_all_ways(fewer, n, k);
        lemma_all_ways(fewer, n, (k - 1) as nat);
        lemma_ways_one_more_success(fewer, n, k, k + 1);
        assert(binomial(m + n, k) == binomial((m + n - 1) as nat, (k - 1) as nat) + binomial(
            (m + n - 1) as nat,
            k,
        ));
    }
}

/// The exact p-value is a probability, and it is one where there is no hit:
/// the draws with at least `q` successes are no more than all draws, and with
/// `q == 0` they are all draws; and there is a draw at all unless more is
/// drawn than there is.
pub proof fn lemma_pval_is_probability(q: nat, m: nat, n: nat, k: nat)
    ensures
        tail_ways(q, m, n, k) <= binomial(m + n, k),
        q == 0 ==> tail_ways(q, m, n, k) == binomial(m + n, k),
        k <= m + n ==> binomial(m + n, k) > 0,
{
    let end = if k <= m {
        k + 1
    } else {
        m + 1
    };
    lemma_all_ways(m, n, k);
    lemma_ways_split(m, n, k, 0, end, k + 1);
    lemma_ways_beyond(m, n, k, end, k + 1);
    if q <= end {
        lemma_ways_split(m, n, k, 0, q, end);
    }
    if k <= m + n {
        lemma_binomial_positive(m + n, k);
    }
}

impl PvalMethod {
    /// The value that the method evaluates, as a count of draws: for `q` hits
    /// among `k` draws from `m` successes and `n` failures it is the first
    /// number out of the second.
    pub open spec fn ways(self, m: nat, n: nat, k: nat) -> (nat, nat) {
        match self {
            PvalMethod::One => (1, 1),
            PvalMethod::LogSpace => (ways_with(m, n, k, m), binomial(m + n, k)),
            PvalMethod::TailSum { population, successes, draws, lower, upper } => (
                ways_between(
                    successes as nat,
                    (population - successes) as nat,
                    draws as nat,
                    lower as nat,
                    (upper + 1) as nat,
                ),
                binomial(population as nat, draws as nat),
            ),
        }
    }
}

/// Whichever method is chosen, it evaluates the exact p-value: the fraction of
/// its two counts is `tail_ways` out of all draws.
pub proof fn lemma_method_is_exact(q: u64, m: u64, n: u64, k: u64, method: PvalMethod)
    requires
        pval_method_of(q, m, n, k) == Ok::<PvalMethod, PvalError>(method),
    ensures
        method.ways(m as nat, n as nat, k as nat).0 * binomial((m + n) as nat, k as nat)
            == tail_ways(q as nat, m as nat, n as nat, k as nat) * method.ways(
            m as nat,
            n as nat,
            k as nat,
        ).1,
{
    let all = binomial((m + n) as nat, k as nat);
    let tail = tail_ways(q as nat, m as nat, n as nat, k as nat);
    lemma_pval_is_probability(q as nat, m as nat, n as nat, k as nat);
    match method {
        PvalMethod::One => {
            assert(1 * all == tail * 1) by (nonlinear_arith)
                requires
                    tail == all,
            ;
        },
        PvalMethod::LogSpace => {
            assert(ways_between(m as nat, n as nat, k as nat, m as nat, m as nat) == 0);
            assert(tail == ways_with(m as nat, n as nat, k as nat, m as nat));
        },
        PvalMethod::TailSum { population, successes, draws, lower, upper } => {},
    }
}

} // verus!
