//! A set of gene names: a vector in which no name occurs twice.

use vstd::hash_set::StringHashSet;
use vstd::prelude::*;
use vstd::seq_lib::seq_to_set_is_finite;

verus! {

/// Taking one more name of a sequence adds that name to the set of the names
/// taken so far.
pub proof fn lemma_take_next_to_set(names: Seq<Seq<char>>, i: int)
    requires
        0 <= i < names.len(),
    ensures
        names.take(i + 1).to_set() == names.take(i).to_set().insert(names[i]),
{
    assert(names.take(i + 1) =~= names.take(i).push(names[i]));
    names.take(i).lemma_push_to_set_commute(names[i]);
}

/// In a sequence without duplicates, the name at `i` is not among the first `i`.
pub proof fn lemma_next_is_new(names: Seq<Seq<char>>, i: int)
    requires
        0 <= i < names.len(),
        names.no_duplicates(),
    ensures
        !names.take(i).to_set().contains(names[i]),
{
    if names.take(i).to_set().contains(names[i]) {
        let j = choose|j: int| 0 <= j < names.take(i).len() && names.take(i)[j] == names[i];
        assert(names[j] == names[i]);
    }
}

/// Collects the names of a list into a hash set.
pub(crate) fn hash_names(names: &[String]) -> (set: StringHashSet)
    ensures
        set@ == names.deep_view().to_set(),
{
    let mut set = StringHashSet::new();
    let mut i: usize = 0;
    while i < names.len()
        invariant
            i <= names.len(),
            set@ == names.deep_view().take(i as int).to_set(),
        decreases names.len() - i,
    {
        proof {
            lemma_take_next_to_set(names.deep_view(), i as int);
        }
        set.insert(names[i].clone());
        i += 1;
    }
    proof {
        assert(names.deep_view().take(i as int) =~= names.deep_view());
    }
    set
}

/// A copy of a list of names.
pub(crate) fn copy_names(names: &[String]) -> (copy: Vec<String>)
    ensures
        copy.deep_view() == names.deep_view(),
{
    let mut copy: Vec<String> = Vec::new();
    let mut i: usize = 0;
    while i < names.len()
        invariant
            i <= names.len(),
            copy.len() == i,
            forall|j: int| 0 <= j < i ==> copy[j]@ == names[j]@,
        decreases names.len() - i,
    {
        copy.push(names[i].clone());
        i += 1;
    }
    assert(copy.deep_view() =~= names.deep_view());
    copy
}

/// A set of gene names.
#[derive(Debug)]
pub struct GeneSet {
    genes: Vec<String>,
}

impl View for GeneSet {
    type V = Set<Seq<char>>;

    open spec fn view(&self) -> Set<Seq<char>> {
        self.names().to_set()
    }
}

impl GeneSet {
    /// The names in the order in which they are stored.
    pub closed spec fn names(&self) -> Seq<Seq<char>> {
        self.genes.deep_view()
    }

    /// No name is stored twice.
    pub open spec fn wf(&self) -> bool {
        self.names().no_duplicates()
    }

    /// The set is finite, and as large as the list that stores it is long.
    pub proof fn lemma_len(&self)
        requires
            self.wf(),
        ensures
            self@.finite(),
            self@.len() == self.names().len(),
    {
        seq_to_set_is_finite(self.names());
        self.names().unique_seq_to_set();
    }

    /// The empty set.
    pub fn new() -> (set: GeneSet)
        ensures
            set.wf(),
            set@ == Set::<Seq<char>>::empty(),
    {
        let set = GeneSet { genes: Vec::new() };
        assert(set.names() =~= Seq::<Seq<char>>::empty());
        assert(set@ =~= Set::<Seq<char>>::empty());
        set
    }

    /// The set of the names in `genes`; a name given more than once is held once.
    pub fn from_genes(genes: &[String]) -> (set: GeneSet)
        ensures
            set.wf(),
            set@ == genes.deep_view().to_set(),
    {
        let mut seen = StringHashSet::new();
        let mut kept: Vec<String> = Vec::new();
        let mut i: usize = 0;
        assert(kept.deep_view() =~= Seq::<Seq<char>>::empty());
        assert(kept.deep_view().to_set() =~= Set::<Seq<char>>::empty());
        while i < genes.len()
            invariant
                i <= genes.len(),
                seen@ == genes.deep_view().take(i as int).to_set(),
                kept.deep_view().to_set() == seen@,
                kept.deep_view().no_duplicates(),
            decreases genes.len() - i,
        {
            let gene = &genes[i];
            proof {
                lemma_take_next_to_set(genes.deep_view(), i as int);
            }
            if !seen.contains(gene.as_str()) {
                let ghost before = kept.deep_view();
                seen.insert(gene.clone());
                kept.push(gene.clone());
                proof {
                    assert(kept.deep_view() =~= before.push(gene@));
                    before.lemma_push_to_set_commute(gene@);
                    assert forall|a: int, b: int|
                        0 <= a < kept.deep_view().len() && 0 <= b < kept.deep_view().len() && a
                            != b implies kept.deep_view()[a] != kept.deep_view()[b] by {
                        if a < before.len() {
                            assert(before.to_set().contains(before[a]));
                        }
                        if b < before.len() {
                            assert(before.to_set().contains(before[b]));
                        }
                    }
                }
            } else {
                assert(seen@.insert(gene@) =~= seen@);
            }
            i += 1;
        }
        proof {
            assert(genes.deep_view().take(i as int) =~= genes.deep_view());
        }
        GeneSet { genes: kept }
    }

    /// The number of names in the set.
    pub fn len(&self) -> (n: usize)
        requires
            self.wf(),
        ensures
            n == self@.len(),
    {
        proof {
            self.lemma_len();
        }
        self.genes.len()
    }

    /// Whether the set holds no name.
    pub fn is_empty(&self) -> (empty: bool)
        requires
            self.wf(),
        ensures
            empty == (self@.len() == 0),
    {
        proof {
            self.lemma_len();
        }
        self.genes.len() == 0
    }

    /// Whether `gene` is in the set.
    pub fn contains(&self, gene: &String) -> (found: bool)
        ensures
            found == self@.contains(gene@),
    {
        let mut i: usize = 0;
        while i < self.genes.len()
            invariant
                i <= self.genes.len(),
                forall|j: int| 0 <= j < i ==> self.names()[j] != gene@,
            decreases self.genes.len() - i,
        {
            if self.genes[i] == *gene {
                assert(self.names()[i as int] == gene@);
                return true;
            }
            i += 1;
        }
        false
    }

    /// The names of the set, each once.
    pub fn genes(&self) -> (genes: &Vec<String>)
        ensures
            genes.deep_view() == self.names(),
    {
        &self.genes
    }

    /// The number of names of the set that `targets` holds too.
    pub(crate) fn count_shared(&self, targets: &StringHashSet) -> (n: u64)
        requires
            self.wf(),
        ensures
            n == self@.intersect(targets@).len(),
            n <= self@.len(),
    {
        let mut n: u64 = 0;
        let mut i: usize = 0;
        proof {
            assert(self.names().take(0).to_set().intersect(targets@) =~= Set::<
                Seq<char>,
            >::empty());
        }
        while i < self.genes.len()
            invariant
                self.wf(),
                i <= self.genes.len(),
                self.genes.len() == self.names().len(),
                n <= i,
                n == self.names().take(i as int).to_set().intersect(targets@).len(),
            decreases self.genes.len() - i,
        {
            let ghost done = self.names().take(i as int).to_set();
            proof {
                lemma_take_next_to_set(self.names(), i as int);
                lemma_next_is_new(self.names(), i as int);
                seq_to_set_is_finite(self.names().take(i as int));
            }
            if targets.contains(self.genes[i].as_str()) {
                proof {
                    let gene = self.names()[i as int];
                    assert(done.insert(gene).intersect(targets@) =~= done.intersect(
                        targets@,
                    ).insert(gene));
                    assert(done.intersect(targets@).finite());
                }
                n += 1;
            } else {
                proof {
                    let gene = self.names()[i as int];
                    assert(done.insert(gene).intersect(targets@) =~= done.intersect(targets@));
                }
            }
            i += 1;
        }
        proof {
            assert(self.names().take(i as int) =~= self.names());
            self.lemma_len();
        }
        n
    }

    /// The set without the names that `gone` holds.
    pub(crate) fn without(&self, gone: &StringHashSet) -> (rest: GeneSet)
        requires
            self.wf(),
        ensures
            rest.wf(),
            rest@ == self@.difference(gone@),
    {
        let mut kept: Vec<String> = Vec::new();
        let mut i: usize = 0;
        proof {
            assert(kept.deep_view() =~= Seq::<Seq<char>>::empty());
            assert(kept.deep_view().to_set() =~= self.names().take(0).to_set().difference(
                gone@,
            ));
        }
        while i < self.genes.len()
            invariant
                self.wf(),
                i <= self.genes.len(),
                self.genes.len() == self.names().len(),
                kept.deep_view().no_duplicates(),
                kept.deep_view().to_set() == self.names().take(i as int).to_set().difference(
                    gone@,
                ),
            decreases self.genes.len() - i,
        {
            let ghost done = self.names().take(i as int).to_set();
            let ghost gene = self.names()[i as int];
            proof {
                lemma_take_next_to_set(self.names(), i as int);
                lemma_next_is_new(self.names(), i as int);
            }
            if !gone.contains(self.genes[i].as_str()) {
                let ghost before = kept.deep_view();
                kept.push(self.genes[i].clone());
                proof {
                    assert(kept.deep_view() =~= before.push(gene));
                    before.lemma_push_to_set_commute(gene);
                    assert(done.insert(gene).difference(gone@) =~= done.difference(gone@).insert(
                        gene,
                    ));
                    assert forall|a: int, b: int|
                        0 <= a < kept.deep_view().len() && 0 <= b < kept.deep_view().len() && a
                            != b implies kept.deep_view()[a] != kept.deep_view()[b] by {
                        if a < before.len() {
                            assert(before.to_set().contains(before[a]));
                        }
                        if b < before.len() {
                            assert(before.to_set().contains(before[b]));
                        }
                    }
                }
            } else {
                proof {
                    assert(done.insert(gene).difference(gone@) =~= done.difference(gone@));
                }
            }
            i += 1;
        }
        proof {
            assert(self.names().take(i as int) =~= self.names());
        }
        GeneSet { genes: kept }
    }

    /// A copy of the set.
    pub fn duplicate(&self) -> (copy: GeneSet)
        ensures
            copy.names() == self.names(),
    {
        let names = self.genes.as_slice();
        assert(names.deep_view() =~= self.genes.deep_view());
        let genes = copy_names(names);
        GeneSet { genes }
    }
}

} // verus!
