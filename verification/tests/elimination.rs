use go_elim::elimination::{
    concat_level_results, process_ontology_level, run_elimination, GoElimLevelResults,
};
use go_elim::hypergeom::{pval_method, PvalMethod};
use go_elim::ontology::GeneOntology;
use statrs::distribution::{Discrete, Hypergeometric};
use statrs::function::gamma::ln_gamma;

fn names(list: &[&str]) -> Vec<String> {
    list.iter().map(|s| s.to_string()).collect()
}

fn entries(list: &[(&str, &[&str])]) -> Vec<(String, Vec<String>)> {
    list.iter().map(|(key, values)| (key.to_string(), names(values))).collect()
}

fn sorted_genes(go_obj: &GeneOntology, id: &str) -> Option<Vec<String>> {
    go_obj.get_genes(&id.to_string()).map(|set| {
        let mut genes = set.genes().clone();
        genes.sort();
        genes
    })
}

/// The p-value of `q` hits with a gene set of `m`, `n` genes outside it and `k` targets.
fn pvalue(q: u64, m: u64, n: u64, k: u64) -> f64 {
    match pval_method(q, m, n, k).unwrap() {
        PvalMethod::One => 1.0,
        PvalMethod::LogSpace => {
            let (n_f, m_f, k_f, q_f) = (n as f64, m as f64, k as f64, q as f64);
            let population_f = (m + n) as f64;
            let log_prob = ln_gamma(m_f + 1.0) + ln_gamma(n_f + 1.0) + ln_gamma(k_f + 1.0)
                + ln_gamma(population_f - k_f + 1.0)
                - ln_gamma(q_f + 1.0)
                - ln_gamma(m_f - q_f + 1.0)
                - ln_gamma(k_f - q_f + 1.0)
                - ln_gamma(n_f - (k_f - q_f) + 1.0)
                - ln_gamma(population_f + 1.0);
            log_prob.exp()
        }
        PvalMethod::TailSum { population, successes, draws, lower, upper } => {
            let dist = Hypergeometric::new(population, successes, draws).unwrap();
            let mut sum = 0.0;
            for i in lower..=upper {
                sum += dist.pmf(i);
            }
            sum
        }
    }
}

fn below(threshold: f64) -> impl Fn(u64, u64, u64, u64) -> bool {
    move |hits, size, universe, trials| pvalue(hits, size, universe - size, trials) <= threshold
}

fn two_level_ontology() -> GeneOntology {
    GeneOntology::new(
        &entries(&[("T1", &["A", "B", "C"]), ("T0", &["A", "B", "C", "D", "E"])]),
        &entries(&[("T1", &["T0"]), ("T0", &[])]),
        &entries(&[("2", &["T1"]), ("1", &["T0"])]),
    )
}

#[test]
fn specific_term_is_eliminated_from_its_ancestor() {
    let mut go_obj = two_level_ontology();
    let target = names(&["A", "B", "C"]);
    let rule = below(0.05);

    let second = process_ontology_level(&target, &"2".to_string(), &mut go_obj, 1, 10, &rule);
    assert_eq!(second.go_ids, names(&["T1"]));
    assert_eq!(second.hits, vec![3]);
    assert_eq!(second.gene_set_lengths, vec![3]);
    assert_eq!(second.eliminated, vec![true]);
    assert!((pvalue(3, 3, 7, 3) - 1.0 / 120.0).abs() < 1e-12);
    assert_eq!(sorted_genes(&go_obj, "T0"), Some(names(&["D", "E"])));
    assert_eq!(sorted_genes(&go_obj, "T1"), Some(names(&["A", "B", "C"])));

    let first = process_ontology_level(&target, &"1".to_string(), &mut go_obj, 1, 10, &rule);
    assert_eq!(first.go_ids, names(&["T0"]));
    assert_eq!(first.hits, vec![0]);
    assert_eq!(first.gene_set_lengths, vec![2]);
    assert_eq!(first.eliminated, vec![false]);
    assert_eq!(pvalue(0, 2, 8, 3), 1.0);
}

#[test]
fn driver_runs_the_levels_in_the_given_order() {
    let mut go_obj = two_level_ontology();
    let target = names(&["A", "B", "C"]);
    let results = run_elimination(&target, &names(&["2", "1"]), &mut go_obj, 1, 10, &below(0.05));
    assert_eq!(results.len(), 2);
    let all = concat_level_results(&results);
    assert_eq!(all.go_ids, names(&["T1", "T0"]));
    assert_eq!(all.hits, vec![3, 0]);
    assert_eq!(all.gene_set_lengths, vec![3, 2]);
    assert_eq!(all.eliminated, vec![true, false]);
    assert_eq!(sorted_genes(&go_obj, "T0"), Some(names(&["D", "E"])));
}

#[test]
fn general_level_first_sees_the_full_gene_set() {
    let mut go_obj = two_level_ontology();
    let target = names(&["A", "B", "C"]);
    let results = run_elimination(&target, &names(&["1", "2"]), &mut go_obj, 1, 10, &below(0.05));
    let all = concat_level_results(&results);
    assert_eq!(all.go_ids, names(&["T0", "T1"]));
    assert_eq!(all.hits, vec![3, 3]);
    assert_eq!(all.gene_set_lengths, vec![5, 3]);
    // 3 of 5 among 3 draws from 10: C(5,3) / C(10,3) = 10 / 120
    assert!((pvalue(3, 5, 5, 3) - 10.0 / 120.0).abs() < 1e-12);
    assert_eq!(all.eliminated, vec![false, true]);
}

#[test]
fn term_below_min_genes_is_neither_tested_nor_eliminated() {
    let mut go_obj = two_level_ontology();
    let target = names(&["A", "B", "C"]);
    let always = |_: u64, _: u64, _: u64, _: u64| true;
    let res = process_ontology_level(&target, &"2".to_string(), &mut go_obj, 4, 10, &always);
    assert!(res.go_ids.is_empty());
    assert!(res.hits.is_empty());
    assert!(res.gene_set_lengths.is_empty());
    assert!(res.eliminated.is_empty());
    assert_eq!(sorted_genes(&go_obj, "T0"), Some(names(&["A", "B", "C", "D", "E"])));
}

#[test]
fn min_genes_bound_is_inclusive() {
    let mut go_obj = two_level_ontology();
    let target = names(&["A"]);
    let never = |_: u64, _: u64, _: u64, _: u64| false;
    let res = process_ontology_level(&target, &"2".to_string(), &mut go_obj, 3, 10, &never);
    assert_eq!(res.go_ids, names(&["T1"]));
    assert_eq!(res.gene_set_lengths, vec![3]);
    assert_eq!(res.hits, vec![1]);
}

#[test]
fn unknown_level_gives_no_records() {
    let mut go_obj = two_level_ontology();
    let target = names(&["A", "B", "C"]);
    let always = |_: u64, _: u64, _: u64, _: u64| true;
    let res = process_ontology_level(&target, &"7".to_string(), &mut go_obj, 0, 10, &always);
    assert!(res.go_ids.is_empty());
    assert!(res.eliminated.is_empty());
    assert_eq!(sorted_genes(&go_obj, "T0"), Some(names(&["A", "B", "C", "D", "E"])));
    assert_eq!(sorted_genes(&go_obj, "T1"), Some(names(&["A", "B", "C"])));
}

#[test]
fn unknown_and_repeated_members_are_passed_over() {
    let mut go_obj = GeneOntology::new(
        &entries(&[("T1", &["A", "B"]), ("T2", &["B", "C"])]),
        &entries(&[]),
        &entries(&[("L", &["T2", "nowhere", "T1", "T2"])]),
    );
    let target = names(&["B", "C", "C"]);
    let never = |_: u64, _: u64, _: u64, _: u64| false;
    let res = process_ontology_level(&target, &"L".to_string(), &mut go_obj, 0, 10, &never);
    assert_eq!(res.go_ids, names(&["T2", "T1"]));
    assert_eq!(res.hits, vec![2, 1]);
    assert_eq!(res.gene_set_lengths, vec![2, 2]);
}

#[test]
fn repeated_targets_count_once() {
    let mut go_obj = two_level_ontology();
    let target = names(&["A", "A", "D", "A"]);
    let seen = std::cell::RefCell::new(Vec::new());
    let record = |hits: u64, size: u64, universe: u64, trials: u64| {
        seen.borrow_mut().push((hits, size, universe, trials));
        false
    };
    let res = process_ontology_level(&target, &"1".to_string(), &mut go_obj, 1, 10, &record);
    assert_eq!(res.hits, vec![2]);
    assert_eq!(*seen.borrow(), vec![(2, 5, 10, 2)]);
}

#[test]
fn siblings_are_scored_before_any_gene_is_removed() {
    // T0 is an ancestor of T1 and stands at the same level, behind it.
    let mut go_obj = GeneOntology::new(
        &entries(&[("T1", &["A", "B", "C"]), ("T0", &["A", "B", "C", "D", "E"])]),
        &entries(&[("T1", &["T0"])]),
        &entries(&[("L", &["T1", "T0"])]),
    );
    let target = names(&["A", "B", "C"]);
    let only_small = |_: u64, size: u64, _: u64, _: u64| size == 3;
    let res = process_ontology_level(&target, &"L".to_string(), &mut go_obj, 1, 10, &only_small);
    assert_eq!(res.go_ids, names(&["T1", "T0"]));
    assert_eq!(res.hits, vec![3, 3]);
    assert_eq!(res.gene_set_lengths, vec![3, 5]);
    assert_eq!(res.eliminated, vec![true, false]);
    assert_eq!(sorted_genes(&go_obj, "T0"), Some(names(&["D", "E"])));
}

#[test]
fn elimination_reaches_ancestors_only() {
    let mut go_obj = GeneOntology::new(
        &entries(&[
            ("root", &["A", "B", "C", "D"]),
            ("mid", &["A", "B", "C"]),
            ("leaf", &["A", "B"]),
            ("sibling", &["A", "B", "X"]),
            ("child", &["A"]),
        ]),
        &entries(&[
            ("leaf", &["mid", "root"]),
            ("sibling", &["mid", "root"]),
            ("child", &["leaf", "mid", "root"]),
            ("mid", &["root"]),
        ]),
        &entries(&[("L", &["leaf", "sibling"])]),
    );
    let target = names(&["A", "B"]);
    let only_two = |_: u64, size: u64, _: u64, _: u64| size == 2;
    let res = process_ontology_level(&target, &"L".to_string(), &mut go_obj, 1, 20, &only_two);
    assert_eq!(res.eliminated, vec![true, false]);
    assert_eq!(sorted_genes(&go_obj, "mid"), Some(names(&["C"])));
    assert_eq!(sorted_genes(&go_obj, "root"), Some(names(&["C", "D"])));
    assert_eq!(sorted_genes(&go_obj, "leaf"), Some(names(&["A", "B"])));
    assert_eq!(sorted_genes(&go_obj, "sibling"), Some(names(&["A", "B", "X"])));
    assert_eq!(sorted_genes(&go_obj, "child"), Some(names(&["A"])));
}

#[test]
fn gene_sets_never_grow_and_hits_stay_within_bounds() {
    let genes = entries(&[
        ("a", &["g1", "g2", "g3", "g4"]),
        ("b", &["g1", "g2", "g5"]),
        ("c", &["g1", "g6"]),
        ("d", &["g2", "g3"]),
    ]);
    let ancestors = entries(&[("c", &["b", "a"]), ("d", &["a"]), ("b", &["a"])]);
    let levels = entries(&[("3", &["c", "d"]), ("2", &["b"]), ("1", &["a"])]);
    let mut go_obj = GeneOntology::new(&genes, &ancestors, &levels);
    let target = names(&["g1", "g2", "g3"]);
    let order = names(&["3", "2", "1"]);
    let ids = ["a", "b", "c", "d"];
    let mut sizes: Vec<usize> =
        ids.iter().map(|id| sorted_genes(&go_obj, id).unwrap().len()).collect();
    for level in order.iter() {
        let res = process_ontology_level(&target, level, &mut go_obj, 1, 12, &below(0.3));
        for i in 0..res.go_ids.len() {
            assert!(res.hits[i] <= res.gene_set_lengths[i]);
            assert!(res.hits[i] <= 3);
        }
        let now: Vec<usize> =
            ids.iter().map(|id| sorted_genes(&go_obj, id).unwrap().len()).collect();
        for i in 0..ids.len() {
            assert!(now[i] <= sizes[i]);
        }
        sizes = now;
    }
    // d takes g2 and g3 out of a, then b takes g1 out of it
    assert_eq!(sizes, vec![1, 3, 2, 2]);
}

#[test]
fn two_runs_on_equal_inputs_agree() {
    let genes = entries(&[
        ("a", &["g1", "g2", "g3", "g4"]),
        ("b", &["g1", "g2", "g5"]),
        ("c", &["g1", "g6"]),
        ("d", &["g2", "g3"]),
    ]);
    let ancestors = entries(&[("c", &["b", "a"]), ("d", &["a"]), ("b", &["a"])]);
    let levels = entries(&[("3", &["c", "d"]), ("2", &["b"]), ("1", &["a"])]);
    let target = names(&["g1", "g2", "g3"]);
    let order = names(&["3", "2", "1"]);
    let run = || -> GoElimLevelResults {
        let mut go_obj = GeneOntology::new(&genes, &ancestors, &levels);
        let results = run_elimination(&target, &order, &mut go_obj, 1, 12, &below(0.3));
        concat_level_results(&results)
    };
    let first = run();
    let second = run();
    assert_eq!(first.go_ids, second.go_ids);
    assert_eq!(first.hits, second.hits);
    assert_eq!(first.gene_set_lengths, second.gene_set_lengths);
    assert_eq!(first.eliminated, second.eliminated);
    assert_eq!(first.go_ids, names(&["c", "d", "b", "a"]));
    assert_eq!(first.hits, vec![1, 2, 2, 0]);
    assert_eq!(first.gene_set_lengths, vec![2, 2, 3, 1]);
    // c: 1 - 120/220, d: 10/220, b: 28/220, a: no hit
    assert_eq!(first.eliminated, vec![false, true, true, false]);
}

#[test]
fn term_that_is_its_own_ancestor_loses_its_genes() {
    let mut go_obj = GeneOntology::new(
        &entries(&[("T", &["A", "B"])]),
        &entries(&[("T", &["T"])]),
        &entries(&[]),
    );
    go_obj.eliminate(&names(&["T"]));
    assert_eq!(sorted_genes(&go_obj, "T"), Some(names(&[])));
}

#[test]
fn later_elimination_uses_the_genes_that_are_left() {
    // P loses A to C1 before its own turn, so G keeps A.
    let mut go_obj = GeneOntology::new(
        &entries(&[("C1", &["A"]), ("P", &["A", "B"]), ("G", &["A", "B", "C"])]),
        &entries(&[("C1", &["P"]), ("P", &["G"])]),
        &entries(&[]),
    );
    go_obj.eliminate(&names(&["C1", "P", "missing"]));
    assert_eq!(sorted_genes(&go_obj, "P"), Some(names(&["B"])));
    assert_eq!(sorted_genes(&go_obj, "G"), Some(names(&["A", "C"])));
    assert_eq!(sorted_genes(&go_obj, "C1"), Some(names(&["A"])));
}

#[test]
fn concatenation_keeps_level_order() {
    let first = GoElimLevelResults {
        go_ids: names(&["x", "y"]),
        hits: vec![1, 2],
        gene_set_lengths: vec![3, 4],
        eliminated: vec![true, false],
    };
    let second = GoElimLevelResults {
        go_ids: names(&["z"]),
        hits: vec![5],
        gene_set_lengths: vec![6],
        eliminated: vec![true],
    };
    let empty = GoElimLevelResults {
        go_ids: vec![],
        hits: vec![],
        gene_set_lengths: vec![],
        eliminated: vec![],
    };
    let all = concat_level_results(&[first, empty, second]);
    assert_eq!(all.go_ids, names(&["x", "y", "z"]));
    assert_eq!(all.hits, vec![1, 2, 5]);
    assert_eq!(all.gene_set_lengths, vec![3, 4, 6]);
    assert_eq!(all.eliminated, vec![true, false, true]);
    assert!(concat_level_results(&[]).go_ids.is_empty());
}

#[test]
fn pvalue_lies_between_zero_and_one() {
    for m in 0..6u64 {
        for k in 0..6u64 {
            for q in 0..=m.min(k) {
                let p = pvalue(q, m, 8 - m, k);
                assert!((0.0..=1.0 + 1e-12).contains(&p), "{} {} {} -> {}", q, m, k, p);
                if q == 0 {
                    assert_eq!(p, 1.0);
                }
            }
        }
    }
}
