//! The ontology state: the gene set of every term, which elimination shrinks,
//! and the ancestors and level members, which stay as they were given.

use crate::gene_set::{copy_names, hash_names, GeneSet};
use vstd::hash_map::StringHashMap;
use vstd::hash_set::StringHashSet;
use vstd::prelude::*;
use vstd::seq_lib::seq_to_set_is_finite;

verus! {

/// What an ontology holds, as mathematical maps keyed by term or level name.
pub struct OntologyView {
    /// The current gene set of each term.
    pub genes: Map<Seq<char>, Set<Seq<char>>>,
    /// The ancestors of each term, in the order given.
    pub ancestors: Map<Seq<char>, Seq<Seq<char>>>,
    /// The member terms of each level, in the order given.
    pub levels: Map<Seq<char>, Seq<Seq<char>>>,
}

impl OntologyView {
    /// Every gene set is finite.
    pub open spec fn wf(self) -> bool {
        forall|id: Seq<char>| #[trigger] self.genes.contains_key(id) ==> self.genes[id].finite()
    }

    /// The ancestors of `id`; none for a term that has no entry.
    pub open spec fn ancestors_of(self, id: Seq<char>) -> Seq<Seq<char>> {
        if self.ancestors.contains_key(id) {
            self.ancestors[id]
        } else {
            Seq::empty()
        }
    }

    /// The members of `level`; none for a level that has no entry.
    pub open spec fn members_of(self, level: Seq<char>) -> Seq<Seq<char>> {
        if self.levels.contains_key(level) {
            self.levels[level]
        } else {
            Seq::empty()
        }
    }

    /// The state after `gone` has been taken out of the gene set of every term
    /// named in `ids`. Names without a gene set are passed over.
    pub open spec fn without_genes(self, ids: Seq<Seq<char>>, gone: Set<Seq<char>>) -> OntologyView {
        OntologyView {
            genes: Map::new(
                |id: Seq<char>| self.genes.contains_key(id),
                |id: Seq<char>|
                    if ids.contains(id) {
                        self.genes[id].difference(gone)
                    } else {
                        self.genes[id]
                    },
            ),
            ancestors: self.ancestors,
            levels: self.levels,
        }
    }

    /// The state after the term `term` has been eliminated: its current genes
    /// are taken out of each of its ancestors. A term without a gene set
    /// changes nothing.
    pub open spec fn eliminate_term(self, term: Seq<char>) -> OntologyView {
        if self.genes.contains_key(term) {
            self.without_genes(self.ancestors_of(term), self.genes[term])
        } else {
            self
        }
    }

    /// The state after the terms of `terms` have been eliminated one after the
    /// other, each with the genes it holds when its turn comes.
    pub open spec fn eliminate_terms(self, terms: Seq<Seq<char>>) -> OntologyView
        decreases terms.len(),
    {
        if terms.len() == 0 {
            self
        } else {
            self.eliminate_terms(terms.drop_last()).eliminate_term(terms.last())
        }
    }

    /// `self` has the terms, ancestors and levels of `earlier`, and no term
    /// has a gene that it did not have in `earlier`.
    pub open spec fn shrunk_from(self, earlier: OntologyView) -> bool {
        &&& self.genes.dom() == earlier.genes.dom()
        &&& self.ancestors == earlier.ancestors
        &&& self.levels == earlier.levels
        &&& forall|id: Seq<char>| #[trigger]
            self.genes.contains_key(id) ==> self.genes[id].subset_of(earlier.genes[id])
                && self.genes[id].len() <= earlier.genes[id].len()
    }

    /// Whether `id` is an ancestor of one of `terms`.
    pub open spec fn is_ancestor_of_any(self, id: Seq<char>, terms: Seq<Seq<char>>) -> bool {
        exists|i: int| 0 <= i < terms.len() && #[trigger] self.ancestors_of(terms[i]).contains(id)
    }
}

/// Taking genes out of some terms leaves a well-formed state in which no gene
/// set has grown.
pub proof fn lemma_without_genes_shrinks(
    s: OntologyView,
    ids: Seq<Seq<char>>,
    gone: Set<Seq<char>>,
)
    requires
        s.wf(),
    ensures
        s.without_genes(ids, gone).wf(),
        s.without_genes(ids, gone).shrunk_from(s),
{
    let after = s.without_genes(ids, gone);
    assert(after.genes.dom() =~= s.genes.dom());
    assert forall|id: Seq<char>| #[trigger] after.genes.contains_key(id) implies after.genes[id].finite()
        && after.genes[id].subset_of(s.genes[id]) && after.genes[id].len() <= s.genes[id].len() by {
        assert(s.genes.contains_key(id));
        vstd::set_lib::lemma_len_subset(after.genes[id], s.genes[id]);
    }
}

/// Shrinking is transitive.
pub proof fn lemma_shrunk_from_transitive(a: OntologyView, b: OntologyView, c: OntologyView)
    requires
        a.shrunk_from(b),
        b.shrunk_from(c),
    ensures
        a.shrunk_from(c),
{
    assert forall|id: Seq<char>| #[trigger] a.genes.contains_key(id) implies a.genes[id].subset_of(
        c.genes[id],
    ) && a.genes[id].len() <= c.genes[id].len() by {
        assert(b.genes.contains_key(id));
    }
}

/// Across the elimination of any terms, the gene set of every term stays
/// within what it was, so its size never grows; terms, ancestors and levels
/// stay as they were.
pub proof fn lemma_eliminate_terms_shrinks(s: OntologyView, terms: Seq<Seq<char>>)
    requires
        s.wf(),
    ensures
        s.eliminate_terms(terms).wf(),
        s.eliminate_terms(terms).shrunk_from(s),
    decreases terms.len(),
{
    if terms.len() > 0 {
        let before = s.eliminate_terms(terms.drop_last());
        lemma_eliminate_terms_shrinks(s, terms.drop_last());
        let term = terms.last();
        if before.genes.contains_key(term) {
            lemma_without_genes_shrinks(before, before.ancestors_of(term), before.genes[term]);
        }
        lemma_shrunk_from_transitive(before.eliminate_term(term), before, s);
    }
}

/// Elimination changes the gene set of a term only if that term is an
/// ancestor of one of the eliminated terms.
pub proof fn lemma_eliminate_terms_reaches_ancestors_only(
    s: OntologyView,
    terms: Seq<Seq<char>>,
    id: Seq<char>,
)
    requires
        s.wf(),
        s.genes.contains_key(id),
        !s.is_ancestor_of_any(id, terms),
    ensures
        s.eliminate_terms(terms).genes[id] == s.genes[id],
    decreases terms.len(),
{
    if terms.len() > 0 {
        let rest = terms.drop_last();
        let before = s.eliminate_terms(rest);
        lemma_eliminate_terms_shrinks(s, rest);
        if s.is_ancestor_of_any(id, rest) {
            let i = choose|i: int| 0 <= i < rest.len() && #[trigger] s.ancestors_of(rest[i]).contains(id);
            assert(s.ancestors_of(terms[i]).contains(id));
        }
        lemma_eliminate_terms_reaches_ancestors_only(s, rest, id);
        assert(!s.ancestors_of(terms[terms.len() - 1]).contains(id));
        assert(before.ancestors_of(terms.last()) == s.ancestors_of(terms.last()));
        assert(before.genes.contains_key(id));
    }
}

/// The names of `ids` that have a gene set in `genes`, each once, in the order
/// of their first occurrence.
pub open spec fn known_terms(
    ids: Seq<Seq<char>>,
    genes: Map<Seq<char>, Set<Seq<char>>>,
) -> Seq<Seq<char>>
    decreases ids.len(),
{
    if ids.len() == 0 {
        Seq::empty()
    } else {
        let before = known_terms(ids.drop_last(), genes);
        let id = ids.last();
        if genes.contains_key(id) && !ids.drop_last().contains(id) {
            before.push(id)
        } else {
            before
        }
    }
}

/// `known_terms` holds a name exactly when the list holds it and it has a gene
/// set, and holds no name twice.
pub proof fn lemma_known_terms(ids: Seq<Seq<char>>, genes: Map<Seq<char>, Set<Seq<char>>>)
    ensures
        known_terms(ids, genes).no_duplicates(),
        known_terms(ids, genes).len() <= ids.len(),
        forall|id: Seq<char>|
            #![trigger known_terms(ids, genes).contains(id)]
            #![trigger ids.contains(id)]
            known_terms(ids, genes).contains(id) <==> ids.contains(id) && genes.contains_key(id),
    decreases ids.len(),
{
    if ids.len() > 0 {
        let rest = ids.drop_last();
        let last = ids.last();
        let before = known_terms(rest, genes);
        lemma_known_terms(rest, genes);
        assert(ids =~= rest.push(last));
        assert forall|id: Seq<char>| ids.contains(id) <==> rest.contains(id) || id == last by {
            if ids.contains(id) {
                let j = choose|j: int| 0 <= j < ids.len() && ids[j] == id;
                if j < rest.len() {
                    assert(rest[j] == id);
                }
            }
            if rest.contains(id) {
                let j = choose|j: int| 0 <= j < rest.len() && rest[j] == id;
                assert(ids[j] == id);
            }
            assert(ids[ids.len() - 1] == last);
        }
        let known = known_terms(ids, genes);
        if genes.contains_key(last) && !rest.contains(last) {
            assert(known == before.push(last));
            assert forall|id: Seq<char>| known.contains(id) <==> before.contains(id) || id
                == last by {
                if known.contains(id) {
                    let j = choose|j: int| 0 <= j < known.len() && known[j] == id;
                    if j < before.len() {
                        assert(before[j] == id);
                    }
                }
                if before.contains(id) {
                    let j = choose|j: int| 0 <= j < before.len() && before[j] == id;
                    assert(known[j] == id);
                }
                assert(known[known.len() - 1] == last);
            }
            assert forall|a: int, b: int|
                0 <= a < known.len() && 0 <= b < known.len() && a != b implies known[a]
                != known[b] by {
                if a < before.len() {
                    assert(before.contains(before[a]));
                }
                if b < before.len() {
                    assert(before.contains(before[b]));
                }
            }
        } else {
            assert(known == before);
        }
        assert forall|id: Seq<char>|
            known.contains(id) <==> ids.contains(id) && genes.contains_key(id) by {
            assert(before.contains(id) <==> rest.contains(id) && genes.contains_key(id));
            assert(before.contains(last) <==> rest.contains(last) && genes.contains_key(last));
        }
    }
}

/// Taking one more name of `ids` extends `known_terms` by that name if it is
/// new and has a gene set, and leaves it as it is otherwise.
pub proof fn lemma_known_terms_next(
    ids: Seq<Seq<char>>,
    genes: Map<Seq<char>, Set<Seq<char>>>,
    i: int,
)
    requires
        0 <= i < ids.len(),
    ensures
        known_terms(ids.take(i + 1), genes) == if genes.contains_key(ids[i]) && !ids.take(
            i,
        ).contains(ids[i]) {
            known_terms(ids.take(i), genes).push(ids[i])
        } else {
            known_terms(ids.take(i), genes)
        },
{
    assert(ids.take(i + 1).drop_last() =~= ids.take(i));
    assert(ids.take(i + 1).last() == ids[i]);
}

/// The gene sets of the pairs, keyed by term name; of two pairs with one name
/// the later one counts.
pub open spec fn gene_map_of(pairs: Seq<(Seq<char>, Seq<Seq<char>>)>) -> Map<
    Seq<char>,
    Set<Seq<char>>,
>
    decreases pairs.len(),
{
    if pairs.len() == 0 {
        Map::empty()
    } else {
        gene_map_of(pairs.drop_last()).insert(pairs.last().0, pairs.last().1.to_set())
    }
}

/// The lists of the pairs, keyed by name; of two pairs with one name the later
/// one counts.
pub open spec fn list_map_of(pairs: Seq<(Seq<char>, Seq<Seq<char>>)>) -> Map<
    Seq<char>,
    Seq<Seq<char>>,
>
    decreases pairs.len(),
{
    if pairs.len() == 0 {
        Map::empty()
    } else {
        list_map_of(pairs.drop_last()).insert(pairs.last().0, pairs.last().1)
    }
}

/// Builds the map from names to lists that `list_map_of` describes.
fn build_list_map(pairs: &[(String, Vec<String>)]) -> (map: StringHashMap<Vec<String>>)
    ensures
        map@.dom() == list_map_of(pairs.deep_view()).dom(),
        forall|id: Seq<char>| #[trigger]
            map@.contains_key(id) ==> map@[id].deep_view() == list_map_of(pairs.deep_view())[id],
{
    let mut map: StringHashMap<Vec<String>> = StringHashMap::new();
    let mut i: usize = 0;
    while i < pairs.len()
        invariant
            i <= pairs.len(),
            map@.dom() == list_map_of(pairs.deep_view().take(i as int)).dom(),
            forall|id: Seq<char>| #[trigger]
                map@.contains_key(id) ==> map@[id].deep_view() == list_map_of(
                    pairs.deep_view().take(i as int),
                )[id],
        decreases pairs.len() - i,
    {
        let list = pairs[i].1.as_slice();
        let names = copy_names(list);
        proof {
            let all = pairs.deep_view();
            assert(all.take(i + 1).drop_last() =~= all.take(i as int));
            assert(all.take(i + 1).last() == all[i as int]);
            assert(all[i as int] == pairs@[i as int].deep_view());
            assert(list.deep_view() =~= pairs[i as int].1.deep_view());
        }
        map.insert(pairs[i].0.clone(), names);
        i += 1;
    }
    proof {
        assert(pairs.deep_view().take(i as int) =~= pairs.deep_view());
    }
    map
}

/// Builds the map from term names to gene sets that `gene_map_of` describes.
fn build_gene_map(pairs: &[(String, Vec<String>)]) -> (map: StringHashMap<GeneSet>)
    ensures
        map@.dom() == gene_map_of(pairs.deep_view()).dom(),
        forall|id: Seq<char>| #[trigger]
            map@.contains_key(id) ==> map@[id].wf() && map@[id]@ == gene_map_of(
                pairs.deep_view(),
            )[id],
{
    let mut map: StringHashMap<GeneSet> = StringHashMap::new();
    let mut i: usize = 0;
    while i < pairs.len()
        invariant
            i <= pairs.len(),
            map@.dom() == gene_map_of(pairs.deep_view().take(i as int)).dom(),
            forall|id: Seq<char>| #[trigger]
                map@.contains_key(id) ==> map@[id].wf() && map@[id]@ == gene_map_of(
                    pairs.deep_view().take(i as int),
                )[id],
        decreases pairs.len() - i,
    {
        let list = pairs[i].1.as_slice();
        let set = GeneSet::from_genes(list);
        proof {
            let all = pairs.deep_view();
            assert(all.take(i + 1).drop_last() =~= all.take(i as int));
            assert(all.take(i + 1).last() == all[i as int]);
            assert(all[i as int] == pairs@[i as int].deep_view());
            assert(list.deep_view() =~= pairs[i as int].1.deep_view());
        }
        map.insert(pairs[i].0.clone(), set);
        i += 1;
    }
    proof {
        assert(pairs.deep_view().take(i as int) =~= pairs.deep_view());
    }
    map
}

/// The gene ontology with what the elimination method needs of it.
pub struct GeneOntology {
    go_to_gene: StringHashMap<GeneSet>,
    ancestors: StringHashMap<Vec<String>>,
    levels: StringHashMap<Vec<String>>,
}

impl View for GeneOntology {
    type V = OntologyView;

    closed spec fn view(&self) -> OntologyView {
        OntologyView {
            genes: Map::new(
                |id: Seq<char>| self.go_to_gene@.contains_key(id),
                |id: Seq<char>| self.go_to_gene@[id]@,
            ),
            ancestors: Map::new(
                |id: Seq<char>| self.ancestors@.contains_key(id),
                |id: Seq<char>| self.ancestors@[id].deep_view(),
            ),
            levels: Map::new(
                |id: Seq<char>| self.levels@.contains_key(id),
                |id: Seq<char>| self.levels@[id].deep_view(),
            ),
        }
    }
}

impl GeneOntology {
    /// Every stored gene set holds each of its names once.
    pub closed spec fn sets_wf(&self) -> bool {
        forall|id: Seq<char>| #[trigger]
            self.go_to_gene@.contains_key(id) ==> self.go_to_gene@[id].wf()
    }

    /// The ontology is well formed.
    pub open spec fn wf(&self) -> bool {
        self.sets_wf() && self@.wf()
    }

    /// An ontology from lists of named lists: the genes of each term, the
    /// ancestors of each term, the member terms of each level.
    pub fn new(
        go_to_gene: &[(String, Vec<String>)],
        ancestors: &[(String, Vec<String>)],
        levels: &[(String, Vec<String>)],
    ) -> (ontology: GeneOntology)
        ensures
            ontology.wf(),
            ontology@.genes == gene_map_of(go_to_gene.deep_view()),
            ontology@.ancestors == list_map_of(ancestors.deep_view()),
            ontology@.levels == list_map_of(levels.deep_view()),
    {
        let ontology = GeneOntology {
            go_to_gene: build_gene_map(go_to_gene),
            ancestors: build_list_map(ancestors),
            levels: build_list_map(levels),
        };
        proof {
            assert(ontology@.genes =~= gene_map_of(go_to_gene.deep_view()));
            assert(ontology@.ancestors =~= list_map_of(ancestors.deep_view()));
            assert(ontology@.levels =~= list_map_of(levels.deep_view()));
            assert forall|id: Seq<char>| #[trigger]
                ontology@.genes.contains_key(id) implies ontology@.genes[id].finite() by {
                seq_to_set_is_finite(ontology.go_to_gene@[id].names());
            }
        }
        ontology
    }

    /// The ancestors of the term `id`, if it has an entry.
    pub fn get_ancestors(&self, id: &String) -> (ancestors: Option<&Vec<String>>)
        ensures
            match ancestors {
                Some(list) => self@.ancestors.contains_key(id@) && list.deep_view()
                    == self@.ancestors[id@],
                None => !self@.ancestors.contains_key(id@),
            },
    {
        self.ancestors.get(id.as_str())
    }

    /// The member terms of the level `id`, if it has an entry.
    pub fn get_level_ids(&self, id: &String) -> (members: Option<&Vec<String>>)
        ensures
            match members {
                Some(list) => self@.levels.contains_key(id@) && list.deep_view()
                    == self@.levels[id@],
                None => !self@.levels.contains_key(id@),
            },
    {
        self.levels.get(id.as_str())
    }

    /// The current gene set of the term `id`, if it has one.
    pub fn get_genes(&self, id: &String) -> (genes: Option<&GeneSet>)
        requires
            self.wf(),
        ensures
            match genes {
                Some(set) => self@.genes.contains_key(id@) && set@ == self@.genes[id@]
                    && set.wf(),
                None => !self@.genes.contains_key(id@),
            },
    {
        self.go_to_gene.get(id.as_str())
    }

    /// The terms of `ids` that have a gene set, each once and in the order of
    /// their first occurrence, and beside each its current gene set.
    pub fn get_genes_list(&self, ids: &[String]) -> (found: (Vec<String>, Vec<&GeneSet>))
        requires
            self.wf(),
        ensures
            found.0.deep_view() == known_terms(ids.deep_view(), self@.genes),
            found.1.len() == found.0.len(),
            forall|i: int|
                0 <= i < found.1.len() ==> (#[trigger] found.1[i]).wf() && found.1[i]@
                    == self@.genes[found.0[i]@],
    {
        let mut seen = StringHashSet::new();
        let mut terms: Vec<String> = Vec::new();
        let mut sets: Vec<&GeneSet> = Vec::new();
        let mut i: usize = 0;
        proof {
            assert(terms.deep_view() =~= known_terms(ids.deep_view().take(0), self@.genes));
        }
        while i < ids.len()
            invariant
                self.wf(),
                i <= ids.len(),
                seen@ == ids.deep_view().take(i as int).to_set(),
                terms.deep_view() == known_terms(ids.deep_view().take(i as int), self@.genes),
                sets.len() == terms.len(),
                forall|j: int|
                    0 <= j < sets.len() ==> (#[trigger] sets[j]).wf() && sets[j]@
                        == self@.genes[terms[j]@],
            decreases ids.len() - i,
        {
            let id = &ids[i];
            proof {
                crate::gene_set::lemma_take_next_to_set(ids.deep_view(), i as int);
                lemma_known_terms_next(ids.deep_view(), self@.genes, i as int);
            }
            if !seen.contains(id.as_str()) {
                match self.go_to_gene.get(id.as_str()) {
                    Some(set) => {
                        let ghost before = terms.deep_view();
                        terms.push(id.clone());
                        sets.push(set);
                        proof {
                            assert(terms.deep_view() =~= before.push(id@));
                        }
                    },
                    None => {},
                }
            }
            seen.insert(id.clone());
            i += 1;
        }
        proof {
            assert(ids.deep_view().take(i as int) =~= ids.deep_view());
        }
        (terms, sets)
    }

    /// Takes the genes of `genes_to_remove` out of the gene set of every term
    /// named in `ids`. A name without a gene set is passed over.
    pub fn remove_genes(&mut self, ids: &[String], genes_to_remove: &GeneSet)
        requires
            old(self).wf(),
        ensures
            final(self).wf(),
            final(self)@ == old(self)@.without_genes(ids.deep_view(), genes_to_remove@),
    {
        let names = genes_to_remove.genes().as_slice();
        let gone = hash_names(names);
        let ghost start = self@;
        let mut i: usize = 0;
        proof {
            assert(names.deep_view() =~= genes_to_remove.names());
            assert(self@.genes =~= start.without_genes(ids.deep_view().take(0), gone@).genes);
        }
        while i < ids.len()
            invariant
                self.wf(),
                start.wf(),
                i <= ids.len(),
                self@ == start.without_genes(ids.deep_view().take(i as int), gone@),
            decreases ids.len() - i,
        {
            let id = &ids[i];
            let ghost now = self@;
            let ghost sets = self.go_to_gene@;
            let ghost done = ids.deep_view().take(i as int);
            let rest = match self.go_to_gene.get(id.as_str()) {
                Some(set) => Some(set.without(&gone)),
                None => None,
            };
            match rest {
                Some(rest) => {
                    proof {
                        seq_to_set_is_finite(rest.names());
                    }
                    self.go_to_gene.insert(id.clone(), rest);
                },
                None => {},
            }
            proof {
                let next = ids.deep_view().take(i + 1);
                assert(next =~= done.push(id@));
                assert forall|t: Seq<char>| next.contains(t) <==> done.contains(t) || t
                    == id@ by {
                    vstd::seq_lib::lemma_seq_contains_after_push(done, id@, t);
                }
                let want = start.without_genes(next, gone@);
                assert forall|t: Seq<char>|
                    self@.genes.contains_key(t) <==> want.genes.contains_key(t) by {
                    assert(now.genes.contains_key(t) <==> sets.contains_key(t));
                }
                assert forall|t: Seq<char>| #[trigger]
                    self@.genes.contains_key(t) implies self@.genes[t] == want.genes[t] by {
                    assert(now.genes.contains_key(t));
                    assert(now.genes[t] == sets[t]@);
                    if t == id@ {
                        assert(self@.genes[t] == sets[t]@.difference(gone@));
                        assert(start.genes[t].difference(gone@).difference(gone@)
                            =~= start.genes[t].difference(gone@));
                    } else {
                        assert(self.go_to_gene@[t] == sets[t]);
                    }
                }
                assert(self@.genes =~= want.genes);
                assert(self@.ancestors =~= want.ancestors);
                assert(self@.levels =~= want.levels);
            }
            i += 1;
        }
        proof {
            assert(ids.deep_view().take(i as int) =~= ids.deep_view());
        }
    }

    /// Eliminates the terms of `terms` one after the other: the genes that a
    /// term holds when its turn comes are taken out of each of its ancestors.
    /// No gene set grows, and only ancestors of the terms can change.
    pub fn eliminate(&mut self, terms: &[String])
        requires
            old(self).wf(),
        ensures
            final(self).wf(),
            final(self)@ == old(self)@.eliminate_terms(terms.deep_view()),
            final(self)@.shrunk_from(old(self)@),
            forall|id: Seq<char>| #[trigger]
                old(self)@.genes.contains_key(id) && !old(self)@.is_ancestor_of_any(
                    id,
                    terms.deep_view(),
                ) ==> final(self)@.genes[id] == old(self)@.genes[id],
    {
        let ghost start = self@;
        let mut i: usize = 0;
        while i < terms.len()
            invariant
                self.wf(),
                i <= terms.len(),
                self@ == start.eliminate_terms(terms.deep_view().take(i as int)),
            decreases terms.len() - i,
        {
            let term = &terms[i];
            proof {
                let all = terms.deep_view();
                assert(all.take(i + 1).drop_last() =~= all.take(i as int));
                assert(all.take(i + 1).last() == term@);
            }
            let ancestors = match self.get_ancestors(term) {
                Some(list) => copy_names(list.as_slice()),
                None => Vec::new(),
            };
            let genes = match self.get_genes(term) {
                Some(set) => Some(set.duplicate()),
                None => None,
            };
            match genes {
                Some(genes) => {
                    let names = ancestors.as_slice();
                    assert(names.deep_view() =~= self@.ancestors_of(term@));
                    self.remove_genes(names, &genes);
                },
                None => {},
            }
            i += 1;
        }
        proof {
            let all = terms.deep_view();
            assert(all.take(i as int) =~= all);
            lemma_eliminate_terms_shrinks(start, all);
            assert forall|id: Seq<char>| #[trigger]
                start.genes.contains_key(id) && !start.is_ancestor_of_any(
                    id,
                    all,
                ) implies self@.genes[id] == start.genes[id] by {
                lemma_eliminate_terms_reaches_ancestors_only(start, all, id);
            }
        }
    }
}

} // verus!
