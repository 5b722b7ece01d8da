//! The level processor and the driver of the elimination method.
//!
//! A level is scored as a whole before any gene is removed, so that every term
//! of the level is tested against the gene sets that the earlier levels left.
//! Whether a score is significant is the caller's decision: the processor
//! hands the four counts of a test to a function and is told yes or no.

use crate::gene_set::{hash_names, GeneSet};
use crate::ontology::{known_terms, lemma_known_terms, GeneOntology, OntologyView};
use vstd::hash_set::StringHashSet;
use vstd::prelude::*;
use vstd::seq_lib::seq_to_set_is_finite;

verus! {

/// The terms of `level` that are tested: its members that have a gene set,
/// each once and in the order of the member list, without those whose gene
/// set holds fewer than `min_genes` genes.
pub open spec fn tested_terms(s: OntologyView, level: Seq<char>, min_genes: nat) -> Seq<Seq<char>> {
    known_terms(s.members_of(level), s.genes).filter(
        |id: Seq<char>| s.genes[id].len() >= min_genes,
    )
}

/// The names of `ids` whose flag is set, in the order of `ids`.
pub open spec fn chosen(ids: Seq<Seq<char>>, flags: Seq<bool>) -> Seq<Seq<char>>
    recommends
        flags.len() == ids.len(),
    decreases ids.len(),
{
    if ids.len() == 0 || flags.len() != ids.len() {
        Seq::empty()
    } else {
        let before = chosen(ids.drop_last(), flags.drop_last());
        if flags.last() {
            before.push(ids.last())
        } else {
            before
        }
    }
}

/// A name is chosen exactly when it stands at a position whose flag is set.
pub proof fn lemma_chosen(ids: Seq<Seq<char>>, flags: Seq<bool>)
    requires
        flags.len() == ids.len(),
    ensures
        forall|id: Seq<char>| #[trigger]
            chosen(ids, flags).contains(id) <==> exists|i: int|
                0 <= i < ids.len() && flags[i] && #[trigger] ids[i] == id,
    decreases ids.len(),
{
    if ids.len() > 0 {
        let rest = ids.drop_last();
        let rest_flags = flags.drop_last();
        let before = chosen(rest, rest_flags);
        let all = chosen(ids, flags);
        lemma_chosen(rest, rest_flags);
        assert forall|id: Seq<char>| #[trigger]
            all.contains(id) <==> exists|i: int|
                0 <= i < ids.len() && flags[i] && #[trigger] ids[i] == id by {
            if all.contains(id) {
                let j = choose|j: int| 0 <= j < all.len() && all[j] == id;
                if j < before.len() {
                    assert(before[j] == id);
                    assert(before.contains(id));
                    let i = choose|i: int|
                        0 <= i < rest.len() && rest_flags[i] && #[trigger] rest[i] == id;
                    assert(flags[i] && ids[i] == id);
                } else {
                    assert(flags[ids.len() - 1] && ids[ids.len() - 1] == id);
                }
            }
            if exists|i: int| 0 <= i < ids.len() && flags[i] && #[trigger] ids[i] == id {
                let i = choose|i: int| 0 <= i < ids.len() && flags[i] && #[trigger] ids[i] == id;
                if i < rest.len() {
                    assert(rest_flags[i] && rest[i] == id);
                    assert(before.contains(id));
                    let j = choose|j: int| 0 <= j < before.len() && before[j] == id;
                    assert(all[j] == id);
                } else {
                    assert(all[all.len() - 1] == id);
                }
            }
        }
    }
}

/// `hits` and `size` are the counts of the term `id` in the state `s`: the
/// term has a gene set of `size` genes, at least `min_genes`, and `hits` of
/// them are target genes. The hits then exceed neither the size nor the number
/// of target genes.
pub open spec fn is_score_of(
    s: OntologyView,
    targets: Set<Seq<char>>,
    min_genes: nat,
    id: Seq<char>,
    hits: u64,
    size: u64,
) -> bool {
    &&& s.genes.contains_key(id)
    &&& hits == s.genes[id].intersect(targets).len()
    &&& size == s.genes[id].len()
    &&& size >= min_genes
    &&& hits <= size
    &&& hits <= targets.len()
}

/// What the processing of one level gives: for each tested term its name, the
/// number of target genes in its gene set, the size of its gene set, and
/// whether it was eliminated. The four vectors run in parallel.
#[derive(Clone, Debug)]
pub struct GoElimLevelResults {
    pub go_ids: Vec<String>,
    pub hits: Vec<u64>,
    pub gene_set_lengths: Vec<u64>,
    pub eliminated: Vec<bool>,
}

impl GoElimLevelResults {
    /// The records are those of the terms tested at `level` in the state `s`,
    /// counted against the target genes `targets`.
    pub open spec fn scores(
        &self,
        s: OntologyView,
        level: Seq<char>,
        targets: Set<Seq<char>>,
        min_genes: nat,
    ) -> bool {
        &&& self.go_ids.deep_view() == tested_terms(s, level, min_genes)
        &&& self.hits.len() == self.go_ids.len()
        &&& self.gene_set_lengths.len() == self.go_ids.len()
        &&& self.eliminated.len() == self.go_ids.len()
        &&& forall|i: int|
            0 <= i < self.go_ids.len() ==> #[trigger] is_score_of(
                s,
                targets,
                min_genes,
                self.go_ids[i]@,
                self.hits[i],
                self.gene_set_lengths[i],
            )
    }

    /// Every flag is an answer of `is_significant` to the counts of its record.
    pub open spec fn decided_by<F: Fn(u64, u64, u64, u64) -> bool>(
        &self,
        is_significant: &F,
        gene_universe_length: u64,
        trials: u64,
    ) -> bool {
        &&& self.eliminated.len() == self.go_ids.len()
        &&& self.hits.len() == self.go_ids.len()
        &&& self.gene_set_lengths.len() == self.go_ids.len()
        &&& forall|i: int|
            0 <= i < self.go_ids.len() ==> is_significant.ensures(
                (self.hits[i], self.gene_set_lengths[i], gene_universe_length, trials),
                #[trigger] self.eliminated[i],
            )
    }

    /// The eliminated terms, in the order of the records.
    pub open spec fn eliminated_terms(&self) -> Seq<Seq<char>> {
        chosen(self.go_ids.deep_view(), self.eliminated@)
    }

    /// Whether `id` is, in `s`, an ancestor of a term that these records mark
    /// as eliminated.
    pub open spec fn reaches(&self, s: OntologyView, id: Seq<char>) -> bool {
        exists|i: int|
            0 <= i < self.go_ids.len() && self.eliminated[i] && #[trigger] s.ancestors_of(
                self.go_ids[i]@,
            ).contains(id)
    }
}

/// Whether `id` is, in `s`, an ancestor of a term that the records of some
/// level mark as eliminated.
pub open spec fn run_reaches(
    results: Seq<GoElimLevelResults>,
    s: OntologyView,
    id: Seq<char>,
) -> bool {
    exists|i: int| 0 <= i < results.len() && (#[trigger] results[i]).reaches(s, id)
}

/// The tested terms of a level with their hit counts and gene set sizes.
fn score_level(
    targets: &StringHashSet,
    level: &String,
    go_obj: &GeneOntology,
    min_genes: usize,
) -> (scored: (Vec<String>, Vec<u64>, Vec<u64>))
    requires
        go_obj.wf(),
        targets@.finite(),
    ensures
        scored.0.deep_view() == tested_terms(go_obj@, level@, min_genes as nat),
        scored.1.len() == scored.0.len(),
        scored.2.len() == scored.0.len(),
        forall|i: int|
            0 <= i < scored.0.len() ==> #[trigger] is_score_of(
                go_obj@,
                targets@,
                min_genes as nat,
                scored.0[i]@,
                scored.1[i],
                scored.2[i],
            ),
{
    let mut ids: Vec<String> = Vec::new();
    let mut hits: Vec<u64> = Vec::new();
    let mut sizes: Vec<u64> = Vec::new();
    let ghost keep = |id: Seq<char>| go_obj@.genes[id].len() >= min_genes as nat;
    let members = match go_obj.get_level_ids(level) {
        Some(list) => list,
        None => {
            assert(tested_terms(go_obj@, level@, min_genes as nat) =~= Seq::<Seq<char>>::empty());
            assert(ids.deep_view() =~= Seq::<Seq<char>>::empty());
            return (ids, hits, sizes);
        },
    };
    let names = members.as_slice();
    assert(names.deep_view() =~= go_obj@.members_of(level@));
    let (known, sets) = go_obj.get_genes_list(names);
    let ghost known_names = known.deep_view();
    proof {
        lemma_known_terms(names.deep_view(), go_obj@.genes);
        assert(ids.deep_view() =~= known_names.take(0).filter(keep));
        assert forall|j: int| 0 <= j < known.len() implies go_obj@.genes.contains_key(
            #[trigger] known_names[j],
        ) by {
            assert(known_names.contains(known_names[j]));
        }
    }
    let mut i: usize = 0;
    while i < known.len()
        invariant
            go_obj.wf(),
            targets@.finite(),
            i <= known.len(),
            known_names == known.deep_view(),
            known_names == known_terms(go_obj@.members_of(level@), go_obj@.genes),
            keep == |id: Seq<char>| go_obj@.genes[id].len() >= min_genes as nat,
            sets.len() == known.len(),
            forall|j: int|
                0 <= j < sets.len() ==> (#[trigger] sets[j]).wf() && sets[j]@
                    == go_obj@.genes[known[j]@],
            forall|j: int| 0 <= j < known.len() ==> go_obj@.genes.contains_key(#[trigger] known_names[j]),
            ids.deep_view() == known_names.take(i as int).filter(keep),
            hits.len() == ids.len(),
            sizes.len() == ids.len(),
            forall|j: int|
                0 <= j < ids.len() ==> #[trigger] is_score_of(
                    go_obj@,
                    targets@,
                    min_genes as nat,
                    ids[j]@,
                    hits[j],
                    sizes[j],
                ),
        decreases known.len() - i,
    {
        let set: &GeneSet = sets[i];
        let size = set.len();
        proof {
            let done = known_names.take(i as int);
            assert(known_names.take(i + 1) =~= done.push(known_names[i as int]));
            done.lemma_filter_push(known_names[i as int], keep);
            assert(known_names[i as int] == known[i as int]@);
        }
        if size >= min_genes {
            let ghost before = ids.deep_view();
            let shared = set.count_shared(targets);
            proof {
                set.lemma_len();
                assert(set@.intersect(targets@) =~= targets@.intersect(set@));
                vstd::set_lib::lemma_len_intersect(targets@, set@);
            }
            let ghost old_ids = ids@;
            let ghost old_hits = hits@;
            let ghost old_sizes = sizes@;
            ids.push(known[i].clone());
            hits.push(shared);
            sizes.push(size as u64);
            proof {
                assert(ids.deep_view() =~= before.push(known_names[i as int]));
                assert forall|j: int| 0 <= j < ids.len() implies #[trigger] is_score_of(
                    go_obj@,
                    targets@,
                    min_genes as nat,
                    ids[j]@,
                    hits[j],
                    sizes[j],
                ) by {
                    if j < old_ids.len() {
                        assert(is_score_of(
                            go_obj@,
                            targets@,
                            min_genes as nat,
                            old_ids[j]@,
                            old_hits[j],
                            old_sizes[j],
                        ));
                    }
                }
            }
        }
        i += 1;
    }
    proof {
        assert(known_names.take(i as int) =~= known_names);
    }
    (ids, hits, sizes)
}

/// Processes one level of the ontology.
///
/// The tested terms of `level` are scored against the target genes, all of
/// them in the state in which the call finds the ontology. For each record
/// `is_significant` is asked once, with the hits, the size of the gene set,
/// `gene_universe_length` and the number of distinct target genes. Only then
/// are the terms for which it said yes eliminated, in the order of the
/// records.
pub fn process_ontology_level<F: Fn(u64, u64, u64, u64) -> bool>(
    target_genes: &[String],
    level: &String,
    go_obj: &mut GeneOntology,
    min_genes: usize,
    gene_universe_length: u64,
    is_significant: &F,
) -> (res: GoElimLevelResults)
    requires
        old(go_obj).wf(),
        forall|hits: u64, size: u64, trials: u64|
            hits <= size && hits <= trials ==> #[trigger] is_significant.requires(
                (hits, size, gene_universe_length, trials),
            ),
    ensures
        final(go_obj).wf(),
        res.scores(old(go_obj)@, level@, target_genes.deep_view().to_set(), min_genes as nat),
        res.decided_by(
            is_significant,
            gene_universe_length,
            target_genes.deep_view().to_set().len() as u64,
        ),
        final(go_obj)@ == old(go_obj)@.eliminate_terms(res.eliminated_terms()),
        final(go_obj)@.shrunk_from(old(go_obj)@),
        forall|id: Seq<char>| #[trigger]
            old(go_obj)@.genes.contains_key(id) && !res.reaches(old(go_obj)@, id)
                ==> final(go_obj)@.genes[id] == old(go_obj)@.genes[id],
        forall|i: int|
            0 <= i < res.go_ids.len() ==> #[trigger] res.hits[i] <= res.gene_set_lengths[i]
                && res.hits[i] <= target_genes.deep_view().to_set().len(),
        forall|i: int|
            0 <= i < res.go_ids.len() ==> #[trigger] res.gene_set_lengths[i] >= min_genes,
{
    let targets = hash_names(target_genes);
    proof {
        seq_to_set_is_finite(target_genes.deep_view());
        target_genes.deep_view().lemma_cardinality_of_set();
    }
    let trials = targets.len() as u64;
    let (go_ids, hits, gene_set_lengths) = score_level(&targets, level, go_obj, min_genes);
    let mut eliminated: Vec<bool> = Vec::new();
    let mut go_to_remove: Vec<String> = Vec::new();
    let mut i: usize = 0;
    proof {
        assert(go_to_remove.deep_view() =~= chosen(go_ids.deep_view().take(0), eliminated@));
    }
    while i < go_ids.len()
        invariant
            i <= go_ids.len(),
            hits.len() == go_ids.len(),
            gene_set_lengths.len() == go_ids.len(),
            eliminated.len() == i,
            trials == target_genes.deep_view().to_set().len(),
            forall|j: int|
                0 <= j < go_ids.len() ==> #[trigger] is_score_of(
                    old(go_obj)@,
                    target_genes.deep_view().to_set(),
                    min_genes as nat,
                    go_ids[j]@,
                    hits[j],
                    gene_set_lengths[j],
                ),
            forall|hits: u64, size: u64, trials: u64|
                hits <= size && hits <= trials ==> #[trigger] is_significant.requires(
                    (hits, size, gene_universe_length, trials),
                ),
            forall|j: int|
                0 <= j < i ==> is_significant.ensures(
                    (hits[j], gene_set_lengths[j], gene_universe_length, trials),
                    #[trigger] eliminated[j],
                ),
            go_to_remove.deep_view() == chosen(go_ids.deep_view().take(i as int), eliminated@),
        decreases go_ids.len() - i,
    {
        let ghost before = go_to_remove.deep_view();
        let ghost flags = eliminated@;
        assert(is_score_of(
            old(go_obj)@,
            target_genes.deep_view().to_set(),
            min_genes as nat,
            go_ids[i as int]@,
            hits[i as int],
            gene_set_lengths[i as int],
        ));
        let significant = is_significant(hits[i], gene_set_lengths[i], gene_universe_length, trials);
        eliminated.push(significant);
        if significant {
            go_to_remove.push(go_ids[i].clone());
        }
        proof {
            let all = go_ids.deep_view();
            assert(all.take(i + 1).drop_last() =~= all.take(i as int));
            assert(eliminated@.drop_last() =~= flags);
            assert(all.take(i + 1).last() == go_ids[i as int]@);
            if significant {
                assert(go_to_remove.deep_view() =~= before.push(go_ids[i as int]@));
            }
        }
        i += 1;
    }
    proof {
        assert(go_ids.deep_view().take(i as int) =~= go_ids.deep_view());
    }
    let terms = go_to_remove.as_slice();
    assert(terms.deep_view() =~= go_to_remove.deep_view());
    go_obj.eliminate(terms);
    let res = GoElimLevelResults { go_ids, hits, gene_set_lengths, eliminated };
    proof {
        let start = old(go_obj)@;
        let gone = res.eliminated_terms();
        lemma_chosen(res.go_ids.deep_view(), res.eliminated@);
        assert forall|id: Seq<char>| #[trigger]
            start.genes.contains_key(id) && !res.reaches(start, id) implies go_obj@.genes[id]
            == start.genes[id] by {
            if start.is_ancestor_of_any(id, gone) {
                let j = choose|j: int|
                    0 <= j < gone.len() && #[trigger] start.ancestors_of(gone[j]).contains(id);
                assert(gone.contains(gone[j]));
                let i = choose|i: int|
                    0 <= i < res.go_ids.len() && res.eliminated@[i]
                        && #[trigger] res.go_ids.deep_view()[i] == gone[j];
                assert(start.ancestors_of(res.go_ids[i]@).contains(id));
            }
        }
        assert forall|i: int| 0 <= i < res.go_ids.len() implies #[trigger] res.hits[i]
            <= res.gene_set_lengths[i] && res.hits[i] <= target_genes.deep_view().to_set().len() by {
            assert(is_score_of(
                old(go_obj)@,
                target_genes.deep_view().to_set(),
                min_genes as nat,
                res.go_ids[i]@,
                res.hits[i],
                res.gene_set_lengths[i],
            ));
        }
        assert forall|i: int| 0 <= i < res.go_ids.len() implies #[trigger] res.gene_set_lengths[i]
            >= min_genes by {
            assert(is_score_of(
                old(go_obj)@,
                target_genes.deep_view().to_set(),
                min_genes as nat,
                res.go_ids[i]@,
                res.hits[i],
                res.gene_set_lengths[i],
            ));
        }
    }
    res
}

/// The decisions of each level of a run.
pub open spec fn decisions_of(results: Seq<GoElimLevelResults>) -> Seq<Seq<bool>> {
    Seq::new(results.len(), |i: int| results[i].eliminated@)
}

/// The state in which a run that started in `s` finds the ontology when it
/// comes to the level at position `n`, where `decisions[i]` holds, for each
/// term tested at level `i`, whether it was eliminated.
pub open spec fn state_after(
    s: OntologyView,
    levels: Seq<Seq<char>>,
    min_genes: nat,
    decisions: Seq<Seq<bool>>,
    n: nat,
) -> OntologyView
    recommends
        n <= levels.len(),
        n <= decisions.len(),
    decreases n,
{
    if n == 0 {
        s
    } else {
        let before = state_after(s, levels, min_genes, decisions, (n - 1) as nat);
        before.eliminate_terms(
            chosen(tested_terms(before, levels[n - 1], min_genes), decisions[n - 1]),
        )
    }
}

/// `results` holds, level by level, the records of a run over `levels` that
/// started in the state `s`: each level is scored in the state that the
/// levels before it left.
pub open spec fn is_run(
    results: Seq<GoElimLevelResults>,
    s: OntologyView,
    levels: Seq<Seq<char>>,
    targets: Set<Seq<char>>,
    min_genes: nat,
) -> bool {
    &&& results.len() == levels.len()
    &&& forall|i: int|
        0 <= i < results.len() ==> (#[trigger] results[i]).scores(
            state_after(s, levels, min_genes, decisions_of(results), i as nat),
            levels[i],
            targets,
            min_genes,
        )
}

/// Every decision of `results` is the value of `rule` at the hits and the gene
/// set size of its record.
pub open spec fn decided_alike(
    results: Seq<GoElimLevelResults>,
    rule: spec_fn(u64, u64) -> bool,
) -> bool {
    forall|i: int, j: int|
        0 <= i < results.len() && 0 <= j < results[i].go_ids.len() ==> #[trigger] results[i].eliminated[j]
            == rule(results[i].hits[j], results[i].gene_set_lengths[j])
}

/// The state that a run reaches depends on the decisions of the levels
/// already processed only.
pub proof fn lemma_state_after_agrees(
    s: OntologyView,
    levels: Seq<Seq<char>>,
    min_genes: nat,
    first: Seq<Seq<bool>>,
    second: Seq<Seq<bool>>,
    n: nat,
)
    requires
        n <= first.len(),
        n <= second.len(),
        forall|i: int| 0 <= i < n ==> first[i] == second[i],
    ensures
        state_after(s, levels, min_genes, first, n) == state_after(s, levels, min_genes, second, n),
    decreases n,
{
    if n > 0 {
        lemma_state_after_agrees(s, levels, min_genes, first, second, (n - 1) as nat);
    }
}

/// From level to level no gene set grows: the state that a run has reached
/// after `n` levels is shrunk from the one it had reached after `m <= n`.
pub proof fn lemma_run_shrinks(
    s: OntologyView,
    levels: Seq<Seq<char>>,
    min_genes: nat,
    decisions: Seq<Seq<bool>>,
    m: nat,
    n: nat,
)
    requires
        s.wf(),
        m <= n,
    ensures
        state_after(s, levels, min_genes, decisions, n).wf(),
        state_after(s, levels, min_genes, decisions, n).shrunk_from(
            state_after(s, levels, min_genes, decisions, m),
        ),
    decreases n,
{
    if n == 0 {
        assert(s.shrunk_from(s));
    } else {
        let before = state_after(s, levels, min_genes, decisions, (n - 1) as nat);
        let terms = chosen(tested_terms(before, levels[n - 1], min_genes), decisions[n - 1]);
        if m == n {
            lemma_run_shrinks(s, levels, min_genes, decisions, 0, (n - 1) as nat);
            crate::ontology::lemma_eliminate_terms_shrinks(before, terms);
            let now = before.eliminate_terms(terms);
            assert(now.shrunk_from(now));
        } else {
            lemma_run_shrinks(s, levels, min_genes, decisions, m, (n - 1) as nat);
            crate::ontology::lemma_eliminate_terms_shrinks(before, terms);
            crate::ontology::lemma_shrunk_from_transitive(
                before.eliminate_terms(terms),
                before,
                state_after(s, levels, min_genes, decisions, m),
            );
        }
    }
}

/// Two records of one level in one state hold the same names and counts.
pub proof fn lemma_scores_agree(
    first: GoElimLevelResults,
    second: GoElimLevelResults,
    s: OntologyView,
    level: Seq<char>,
    targets: Set<Seq<char>>,
    min_genes: nat,
)
    requires
        first.scores(s, level, targets, min_genes),
        second.scores(s, level, targets, min_genes),
    ensures
        first.go_ids.deep_view() == second.go_ids.deep_view(),
        first.hits@ == second.hits@,
        first.gene_set_lengths@ == second.gene_set_lengths@,
{
    let terms = tested_terms(s, level, min_genes);
    assert forall|i: int| 0 <= i < terms.len() implies first.hits[i] == second.hits[i]
        && first.gene_set_lengths[i] == second.gene_set_lengths[i] by {
        assert(first.go_ids.deep_view()[i] == first.go_ids[i]@);
        assert(second.go_ids.deep_view()[i] == second.go_ids[i]@);
        assert(is_score_of(
            s,
            targets,
            min_genes,
            first.go_ids[i]@,
            first.hits[i],
            first.gene_set_lengths[i],
        ));
        assert(is_score_of(
            s,
            targets,
            min_genes,
            second.go_ids[i]@,
            second.hits[i],
            second.gene_set_lengths[i],
        ));
    }
    assert(first.hits@ =~= second.hits@);
    assert(first.gene_set_lengths@ =~= second.gene_set_lengths@);
}

/// A run is determined by its inputs: two runs over the same levels from the
/// same state, for the same targets and the same least size of a gene set,
/// whose decisions follow one rule on the counts, give the same records at
/// each of the first `n` levels and are in the same state after them.
pub proof fn lemma_run_deterministic(
    first: Seq<GoElimLevelResults>,
    second: Seq<GoElimLevelResults>,
    s: OntologyView,
    levels: Seq<Seq<char>>,
    targets: Set<Seq<char>>,
    min_genes: nat,
    rule: spec_fn(u64, u64) -> bool,
    n: nat,
)
    requires
        is_run(first, s, levels, targets, min_genes),
        is_run(second, s, levels, targets, min_genes),
        decided_alike(first, rule),
        decided_alike(second, rule),
        n <= levels.len(),
    ensures
        forall|i: int|
            0 <= i < n ==> {
                &&& (#[trigger] first[i]).go_ids.deep_view() == second[i].go_ids.deep_view()
                &&& first[i].hits@ == second[i].hits@
                &&& first[i].gene_set_lengths@ == second[i].gene_set_lengths@
                &&& first[i].eliminated@ == second[i].eliminated@
            },
        state_after(s, levels, min_genes, decisions_of(first), n) == state_after(
            s,
            levels,
            min_genes,
            decisions_of(second),
            n,
        ),
    decreases n,
{
    if n > 0 {
        let k = (n - 1) as nat;
        lemma_run_deterministic(first, second, s, levels, targets, min_genes, rule, k);
        let state = state_after(s, levels, min_genes, decisions_of(first), k);
        let a = first[k as int];
        let b = second[k as int];
        assert(a.scores(state, levels[k as int], targets, min_genes));
        assert(b.scores(state, levels[k as int], targets, min_genes));
        lemma_scores_agree(a, b, state, levels[k as int], targets, min_genes);
        assert forall|j: int| 0 <= j < a.eliminated.len() implies a.eliminated[j]
            == b.eliminated[j] by {
            assert(a.eliminated[j] == rule(a.hits[j], a.gene_set_lengths[j]));
            assert(second[k as int].eliminated[j] == rule(
                second[k as int].hits[j],
                second[k as int].gene_set_lengths[j],
            ));
        }
        assert(a.eliminated@ =~= b.eliminated@);
        assert(decisions_of(first)[k as int] == decisions_of(second)[k as int]);
    }
}

/// Runs the elimination method over `levels`, which the caller gives from the
/// most specific to the most general: each level is processed in the state
/// that the levels before it left, and the records come back level by level.
pub fn run_elimination<F: Fn(u64, u64, u64, u64) -> bool>(
    target_genes: &[String],
    levels: &[String],
    go_obj: &mut GeneOntology,
    min_genes: usize,
    gene_universe_length: u64,
    is_significant: &F,
) -> (results: Vec<GoElimLevelResults>)
    requires
        old(go_obj).wf(),
        forall|hits: u64, size: u64, trials: u64|
            hits <= size && hits <= trials ==> #[trigger] is_significant.requires(
                (hits, size, gene_universe_length, trials),
            ),
    ensures
        final(go_obj).wf(),
        is_run(
            results@,
            old(go_obj)@,
            levels.deep_view(),
            target_genes.deep_view().to_set(),
            min_genes as nat,
        ),
        forall|i: int|
            0 <= i < results.len() ==> (#[trigger] results[i]).decided_by(
                is_significant,
                gene_universe_length,
                target_genes.deep_view().to_set().len() as u64,
            ),
        final(go_obj)@ == state_after(
            old(go_obj)@,
            levels.deep_view(),
            min_genes as nat,
            decisions_of(results@),
            levels.len() as nat,
        ),
        final(go_obj)@.shrunk_from(old(go_obj)@),
        forall|id: Seq<char>| #[trigger]
            old(go_obj)@.genes.contains_key(id) && !run_reaches(results@, old(go_obj)@, id)
                ==> final(go_obj)@.genes[id] == old(go_obj)@.genes[id],
{
    let ghost start = go_obj@;
    let ghost names = levels.deep_view();
    let ghost targets = target_genes.deep_view().to_set();
    let mut results: Vec<GoElimLevelResults> = Vec::new();
    let mut i: usize = 0;
    while i < levels.len()
        invariant
            go_obj.wf(),
            start.wf(),
            i <= levels.len(),
            names == levels.deep_view(),
            targets == target_genes.deep_view().to_set(),
            results.len() == i,
            forall|hits: u64, size: u64, trials: u64|
                hits <= size && hits <= trials ==> #[trigger] is_significant.requires(
                    (hits, size, gene_universe_length, trials),
                ),
            forall|j: int|
                0 <= j < i ==> (#[trigger] results[j]).scores(
                    state_after(start, names, min_genes as nat, decisions_of(results@), j as nat),
                    names[j],
                    targets,
                    min_genes as nat,
                ),
            forall|j: int|
                0 <= j < i ==> (#[trigger] results[j]).decided_by(
                    is_significant,
                    gene_universe_length,
                    targets.len() as u64,
                ),
            go_obj@ == state_after(
                start,
                names,
                min_genes as nat,
                decisions_of(results@),
                i as nat,
            ),
            go_obj@.shrunk_from(start),
            forall|id: Seq<char>| #[trigger]
                start.genes.contains_key(id) && !run_reaches(results@, start, id)
                    ==> go_obj@.genes[id] == start.genes[id],
        decreases levels.len() - i,
    {
        let ghost before = results@;
        let ghost state = go_obj@;
        let level_results = process_ontology_level(
            target_genes,
            &levels[i],
            go_obj,
            min_genes,
            gene_universe_length,
            is_significant,
        );
        results.push(level_results);
        proof {
            assert(names[i as int] == levels[i as int]@);
            assert forall|k: nat| k <= i implies #[trigger] state_after(
                start,
                names,
                min_genes as nat,
                decisions_of(results@),
                k,
            ) == state_after(start, names, min_genes as nat, decisions_of(before), k) by {
                lemma_state_after_agrees(
                    start,
                    names,
                    min_genes as nat,
                    decisions_of(results@),
                    decisions_of(before),
                    k,
                );
            }
            assert(decisions_of(results@)[i as int] == results[i as int].eliminated@);
            assert forall|j: int| 0 <= j < i + 1 implies (#[trigger] results[j]).scores(
                state_after(start, names, min_genes as nat, decisions_of(results@), j as nat),
                names[j],
                targets,
                min_genes as nat,
            ) by {
                if j < i {
                    assert(results[j] == before[j]);
                }
            }
            crate::ontology::lemma_shrunk_from_transitive(go_obj@, state, start);
            assert forall|id: Seq<char>| #[trigger]
                start.genes.contains_key(id) && !run_reaches(
                    results@,
                    start,
                    id,
                ) implies go_obj@.genes[id] == start.genes[id] by {
                if run_reaches(before, start, id) {
                    let j = choose|j: int|
                        0 <= j < before.len() && (#[trigger] before[j]).reaches(start, id);
                    assert(results[j].reaches(start, id));
                }
                assert(!results[i as int].reaches(start, id));
                assert(state.genes.contains_key(id));
                if results[i as int].reaches(state, id) {
                    let k = choose|k: int|
                        0 <= k < results[i as int].go_ids.len() && results[i as int].eliminated[k]
                            && #[trigger] state.ancestors_of(results[i as int].go_ids[k]@).contains(
                            id,
                        );
                    assert(start.ancestors_of(results[i as int].go_ids[k]@).contains(id));
                }
            }
        }
        i += 1;
    }
    results
}

/// The names of all records of `results`, level after level.
pub open spec fn all_ids(results: Seq<GoElimLevelResults>) -> Seq<Seq<char>>
    decreases results.len(),
{
    if results.len() == 0 {
        Seq::empty()
    } else {
        all_ids(results.drop_last()) + results.last().go_ids.deep_view()
    }
}

/// The hits of all records of `results`, level after level.
pub open spec fn all_hits(results: Seq<GoElimLevelResults>) -> Seq<u64>
    decreases results.len(),
{
    if results.len() == 0 {
        Seq::empty()
    } else {
        all_hits(results.drop_last()) + results.last().hits@
    }
}

/// The gene set sizes of all records of `results`, level after level.
pub open spec fn all_gene_set_lengths(results: Seq<GoElimLevelResults>) -> Seq<u64>
    decreases results.len(),
{
    if results.len() == 0 {
        Seq::empty()
    } else {
        all_gene_set_lengths(results.drop_last()) + results.last().gene_set_lengths@
    }
}

/// The decisions of all records of `results`, level after level.
pub open spec fn all_eliminated(results: Seq<GoElimLevelResults>) -> Seq<bool>
    decreases results.len(),
{
    if results.len() == 0 {
        Seq::empty()
    } else {
        all_eliminated(results.drop_last()) + results.last().eliminated@
    }
}

impl GoElimLevelResults {
    /// Appends the records of `more` to those of `self`.
    pub fn append(&mut self, more: &GoElimLevelResults)
        ensures
            final(self).go_ids.deep_view() == old(self).go_ids.deep_view()
                + more.go_ids.deep_view(),
            final(self).hits@ == old(self).hits@ + more.hits@,
            final(self).gene_set_lengths@ == old(self).gene_set_lengths@
                + more.gene_set_lengths@,
            final(self).eliminated@ == old(self).eliminated@ + more.eliminated@,
    {
        let ghost ids = self.go_ids.deep_view();
        let ghost hits = self.hits@;
        let ghost sizes = self.gene_set_lengths@;
        let ghost flags = self.eliminated@;
        let mut i: usize = 0;
        while i < more.go_ids.len()
            invariant
                i <= more.go_ids.len(),
                self.go_ids.deep_view() == ids + more.go_ids.deep_view().take(i as int),
                self.hits@ == hits,
                self.gene_set_lengths@ == sizes,
                self.eliminated@ == flags,
            decreases more.go_ids.len() - i,
        {
            let ghost before = self.go_ids.deep_view();
            self.go_ids.push(more.go_ids[i].clone());
            proof {
                let added = more.go_ids.deep_view();
                assert(self.go_ids.deep_view() =~= before.push(added[i as int]));
                assert(added.take(i + 1) =~= added.take(i as int).push(added[i as int]));
                assert(ids + added.take(i + 1) =~= (ids + added.take(i as int)).push(
                    added[i as int],
                ));
            }
            i += 1;
        }
        proof {
            assert(more.go_ids.deep_view().take(i as int) =~= more.go_ids.deep_view());
        }
        let mut i: usize = 0;
        while i < more.hits.len()
            invariant
                i <= more.hits.len(),
                self.go_ids.deep_view() == ids + more.go_ids.deep_view(),
                self.hits@ == hits + more.hits@.take(i as int),
                self.gene_set_lengths@ == sizes,
                self.eliminated@ == flags,
            decreases more.hits.len() - i,
        {
            self.hits.push(more.hits[i]);
            proof {
                assert(more.hits@.take(i + 1) =~= more.hits@.take(i as int).push(
                    more.hits[i as int],
                ));
                assert(self.hits@ =~= hits + more.hits@.take(i + 1));
            }
            i += 1;
        }
        proof {
            assert(more.hits@.take(i as int) =~= more.hits@);
        }
        let mut i: usize = 0;
        while i < more.gene_set_lengths.len()
            invariant
                i <= more.gene_set_lengths.len(),
                self.go_ids.deep_view() == ids + more.go_ids.deep_view(),
                self.hits@ == hits + more.hits@,
                self.gene_set_lengths@ == sizes + more.gene_set_lengths@.take(i as int),
                self.eliminated@ == flags,
            decreases more.gene_set_lengths.len() - i,
        {
            self.gene_set_lengths.push(more.gene_set_lengths[i]);
            proof {
                assert(more.gene_set_lengths@.take(i + 1) =~= more.gene_set_lengths@.take(
                    i as int,
                ).push(more.gene_set_lengths[i as int]));
                assert(self.gene_set_lengths@ =~= sizes + more.gene_set_lengths@.take(i + 1));
            }
            i += 1;
        }
        proof {
            assert(more.gene_set_lengths@.take(i as int) =~= more.gene_set_lengths@);
        }
        let mut i: usize = 0;
        while i < more.eliminated.len()
            invariant
                i <= more.eliminated.len(),
                self.go_ids.deep_view() == ids + more.go_ids.deep_view(),
                self.hits@ == hits + more.hits@,
                self.gene_set_lengths@ == sizes + more.gene_set_lengths@,
                self.eliminated@ == flags + more.eliminated@.take(i as int),
            decreases more.eliminated.len() - i,
        {
            self.eliminated.push(more.eliminated[i]);
            proof {
                assert(more.eliminated@.take(i + 1) =~= more.eliminated@.take(i as int).push(
                    more.eliminated[i as int],
                ));
                assert(self.eliminated@ =~= flags + more.eliminated@.take(i + 1));
            }
            i += 1;
        }
        proof {
            assert(more.eliminated@.take(i as int) =~= more.eliminated@);
        }
    }
}

/// The records of all levels in one bundle, in level order.
pub fn concat_level_results(results: &[GoElimLevelResults]) -> (all: GoElimLevelResults)
    ensures
        all.go_ids.deep_view() == all_ids(results@),
        all.hits@ == all_hits(results@),
        all.gene_set_lengths@ == all_gene_set_lengths(results@),
        all.eliminated@ == all_eliminated(results@),
{
    let mut all = GoElimLevelResults {
        go_ids: Vec::new(),
        hits: Vec::new(),
        gene_set_lengths: Vec::new(),
        eliminated: Vec::new(),
    };
    let mut i: usize = 0;
    proof {
        assert(all.go_ids.deep_view() =~= all_ids(results@.take(0)));
    }
    while i < results.len()
        invariant
            i <= results.len(),
            all.go_ids.deep_view() == all_ids(results@.take(i as int)),
            all.hits@ == all_hits(results@.take(i as int)),
            all.gene_set_lengths@ == all_gene_set_lengths(results@.take(i as int)),
            all.eliminated@ == all_eliminated(results@.take(i as int)),
        decreases results.len() - i,
    {
        proof {
            assert(results@.take(i + 1).drop_last() =~= results@.take(i as int));
            assert(results@.take(i + 1).last() == results[i as int]);
        }
        all.append(&results[i]);
        i += 1;
    }
    proof {
        assert(results@.take(i as int) =~= results@);
    }
    all
}

} // verus!
