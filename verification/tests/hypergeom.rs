use go_elim::gene_set::GeneSet;
use go_elim::hypergeom::{
    count_hits, count_hits_hash, hypergeom_helper, pval_method, ContingencyTable, PvalError,
    PvalMethod,
};

fn gene_names(list: &[&str]) -> Vec<String> {
    list.iter().map(|s| s.to_string()).collect()
}

#[test]
fn count_hits_counts_shared_genes() {
    let sets = vec![
        gene_names(&["A", "B", "C"]),
        gene_names(&["D"]),
        gene_names(&[]),
        gene_names(&["C", "E", "A", "F"]),
    ];
    let hits = count_hits(&sets, &gene_names(&["A", "C", "Z"]));
    assert_eq!(hits, vec![2, 0, 0, 2]);
}

#[test]
fn count_hits_counts_a_repeated_gene_once() {
    let sets = vec![gene_names(&["A", "A", "B", "A"]), gene_names(&["B", "B"])];
    let hits = count_hits(&sets, &gene_names(&["A", "B", "B", "A"]));
    assert_eq!(hits, vec![2, 1]);
}

#[test]
fn count_hits_of_no_sets_or_no_targets() {
    assert_eq!(count_hits(&[], &gene_names(&["A"])), Vec::<u64>::new());
    assert_eq!(count_hits(&[gene_names(&["A"])], &[]), vec![0]);
}

#[test]
fn count_hits_hash_counts_shared_genes() {
    let first = GeneSet::from_genes(&gene_names(&["A", "B", "C", "B"]));
    let second = GeneSet::from_genes(&gene_names(&["X"]));
    let third = GeneSet::new();
    let hits = count_hits_hash(vec![&first, &second, &third], &gene_names(&["C", "B", "X", "C"]));
    assert_eq!(hits, vec![2, 1, 0]);
}

#[test]
fn helper_counts_lists_as_given() {
    let target = gene_names(&["A", "B", "C"]);
    let sets = vec![gene_names(&["A", "B", "X", "Y"]), gene_names(&["Q", "Q"])];
    let universe = gene_names(&["A", "B", "C", "X", "Y", "Q", "R", "S"]);
    let counts = hypergeom_helper(&target, &sets, &universe);
    assert_eq!(counts.hits, vec![2, 0]);
    assert_eq!(counts.gene_set_lengths, vec![4, 2]);
    assert_eq!(counts.trials, 3);
    assert_eq!(counts.gene_universe_length, 8);
}

#[test]
fn table_cells_add_up_to_the_universe() {
    let table = ContingencyTable::from_counts(3, 5, 4, 20).unwrap();
    assert_eq!(table, ContingencyTable { a1_b1: 3, a0_b1: 2, a1_b0: 1, a0_b0: 14 });
    assert_eq!(table.a1_b1 + table.a0_b1 + table.a1_b0 + table.a0_b0, 20);
}

#[test]
fn table_with_an_exactly_filled_universe() {
    // 6 + 6 - 3 = 9 fits in 9 although 6 + 6 does not.
    let table = ContingencyTable::from_counts(3, 6, 6, 9).unwrap();
    assert_eq!(table, ContingencyTable { a1_b1: 3, a0_b1: 3, a1_b0: 3, a0_b0: 0 });
    let zero = ContingencyTable::from_counts(0, 0, 0, 0).unwrap();
    assert_eq!(zero, ContingencyTable { a1_b1: 0, a0_b1: 0, a1_b0: 0, a0_b0: 0 });
}

#[test]
fn table_of_counts_that_do_not_fit() {
    assert_eq!(ContingencyTable::from_counts(4, 3, 5, 20), None);
    assert_eq!(ContingencyTable::from_counts(4, 5, 3, 20), None);
    assert_eq!(ContingencyTable::from_counts(1, 30, 3, 20), None);
    assert_eq!(ContingencyTable::from_counts(3, 6, 6, 8), None);
    assert_eq!(ContingencyTable::from_counts(0, u64::MAX, u64::MAX, u64::MAX), None);
}

#[test]
fn no_hit_means_a_pvalue_of_one() {
    assert_eq!(pval_method(0, 5, 10, 3), Ok(PvalMethod::One));
    assert_eq!(pval_method(0, u64::MAX, u64::MAX, u64::MAX), Ok(PvalMethod::One));
    assert_eq!(pval_method(0, 0, 0, 0), Ok(PvalMethod::One));
}

#[test]
fn fully_hit_set_is_evaluated_in_log_space() {
    assert_eq!(pval_method(3, 3, 7, 3), Ok(PvalMethod::LogSpace));
    assert_eq!(pval_method(3, 3, 7, 9), Ok(PvalMethod::LogSpace));
    // not enough draws for all of the set: the tail is summed
    assert_eq!(
        pval_method(3, 3, 7, 2),
        Ok(PvalMethod::TailSum { population: 10, successes: 3, draws: 2, lower: 3, upper: 2 })
    );
}

#[test]
fn partial_hit_sums_the_tail() {
    assert_eq!(
        pval_method(2, 5, 15, 4),
        Ok(PvalMethod::TailSum { population: 20, successes: 5, draws: 4, lower: 2, upper: 4 })
    );
    assert_eq!(
        pval_method(2, 5, 15, 9),
        Ok(PvalMethod::TailSum { population: 20, successes: 5, draws: 9, lower: 2, upper: 5 })
    );
    assert_eq!(
        pval_method(2, 5, 15, 20),
        Ok(PvalMethod::TailSum { population: 20, successes: 5, draws: 20, lower: 2, upper: 5 })
    );
}

#[test]
fn more_draws_than_population_is_an_error() {
    assert_eq!(pval_method(2, 5, 15, 21), Err(PvalError::TooManyDraws));
    // the log-space branch does not look at the population
    assert_eq!(pval_method(5, 5, 15, 21), Ok(PvalMethod::LogSpace));
}

#[test]
fn population_beyond_u64_is_an_error() {
    assert_eq!(pval_method(1, u64::MAX, 1, 1), Err(PvalError::PopulationOverflow));
    assert_eq!(pval_method(2, 2, u64::MAX, 2), Err(PvalError::PopulationOverflow));
    assert_eq!(
        pval_method(1, u64::MAX - 1, 1, 1),
        Ok(PvalMethod::TailSum {
            population: u64::MAX,
            successes: u64::MAX - 1,
            draws: 1,
            lower: 1,
            upper: 1
        })
    );
}
