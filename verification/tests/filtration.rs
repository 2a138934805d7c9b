use cova::complex::SimplicialComplex;
use cova::error::TopologyError;
use cova::filtration::{DistanceTable, Outcome, Reserved, VietorisRips};

// Four points on a line at 0, 1, 2 and 4: the keys are the distances.
fn line() -> DistanceTable {
    let at = [0u64, 1, 2, 4];
    let keys = at.iter().map(|a| at.iter().map(|b| a.abs_diff(*b)).collect()).collect();
    DistanceTable::new(keys).ok().unwrap()
}

fn cells(complex: &SimplicialComplex) -> Vec<Vec<Vec<usize>>> {
    (0..complex.levels())
        .map(|d| {
            (0..complex.count(d)).map(|h| complex.cell(d, h).unwrap().vertices().clone()).collect()
        })
        .collect()
}

#[test]
fn rips_complex_is_the_flag_complex_of_the_threshold_graph() {
    let table = line();
    let complex = VietorisRips::build(&table, 2, &Reserved {});
    assert_eq!(
        cells(&complex),
        vec![
            vec![vec![0], vec![1], vec![2], vec![3]],
            vec![vec![0, 1], vec![0, 2], vec![1, 2], vec![2, 3]],
            vec![vec![0, 1, 2]],
        ]
    );
}

#[test]
fn rips_complex_at_threshold_zero_has_only_points() {
    let complex = VietorisRips::build(&line(), 0, &Reserved {});
    assert_eq!(cells(&complex), vec![vec![vec![0], vec![1], vec![2], vec![3]]]);
}

#[test]
fn rips_complex_of_no_points_is_empty() {
    let table = DistanceTable::new(vec![]).ok().unwrap();
    let complex = VietorisRips::build(&table, 5, &Reserved {});
    assert_eq!(complex.levels(), 0);
    assert_eq!(table.len(), 0);
}

#[test]
fn rips_complex_at_a_large_threshold_is_a_full_simplex() {
    let complex = VietorisRips::build(&line(), 4, &Reserved {});
    assert_eq!(
        (complex.count(0), complex.count(1), complex.count(2), complex.count(3)),
        (4, 6, 4, 1)
    );
    assert_eq!(complex.levels(), 4);
}

#[test]
fn filtration_is_monotone() {
    let table = line();
    let thresholds = vec![0, 1, 2, 3, 4];
    let runs = VietorisRips::build_serial(&table, &thresholds, &Reserved {});
    for pair in runs.windows(2) {
        let (small, large) = (&pair[0].1, &pair[1].1);
        for d in 0..small.levels() {
            for h in 0..small.count(d) {
                assert!(large.contains(small.cell(d, h).unwrap()));
            }
        }
    }
}

#[test]
fn serial_run_keeps_request_order() {
    let table = line();
    let thresholds = vec![4, 0, 2];
    let runs = VietorisRips::build_serial(&table, &thresholds, &Reserved {});
    assert_eq!(runs.len(), 3);
    assert_eq!(runs[0].0, 4);
    assert_eq!(runs[1].0, 0);
    assert_eq!(runs[2].0, 2);
    assert_eq!(runs[0].1.count(1), 6);
    assert_eq!(runs[1].1.count(1), 0);
    assert_eq!(runs[2].1.count(1), 4);
}

#[test]
fn gathered_outcomes_equal_the_serial_run() {
    let table = line();
    let thresholds = vec![3, 1, 4, 1, 2];
    let serial = VietorisRips::build_serial(&table, &thresholds, &Reserved {});
    let tasks = VietorisRips::schedule(&thresholds);
    assert_eq!(tasks.len(), 5);
    assert_eq!((tasks[2].index, tasks[2].threshold), (2, 4));
    // Outcomes arrive in another order than they were asked for.
    let order = [3usize, 0, 4, 2, 1];
    let outcomes: Vec<Outcome> =
        order.iter().map(|&i| VietorisRips::run(&table, &tasks[i], &Reserved {})).collect();
    let gathered = VietorisRips::gather(outcomes, thresholds.len()).ok().unwrap();
    assert_eq!(gathered.len(), serial.len());
    for (a, b) in gathered.iter().zip(serial.iter()) {
        assert_eq!(a.0, b.0);
        assert_eq!(cells(&a.1), cells(&b.1));
    }
}

#[test]
fn gather_reports_missing_and_surplus_outcomes() {
    let table = line();
    let tasks = VietorisRips::schedule(&vec![1, 2]);
    let one = vec![VietorisRips::run(&table, &tasks[0], &Reserved {})];
    assert_eq!(VietorisRips::gather(one, 2).err(), Some(TopologyError::DimensionMismatch));
    let twice = vec![
        VietorisRips::run(&table, &tasks[1], &Reserved {}),
        VietorisRips::run(&table, &tasks[1], &Reserved {}),
    ];
    assert_eq!(VietorisRips::gather(twice, 2).err(), Some(TopologyError::Lookup));
    assert_eq!(VietorisRips::gather(vec![], 0).ok().unwrap().len(), 0);
}

#[test]
fn distance_table_must_be_square() {
    assert_eq!(
        DistanceTable::new(vec![vec![0, 1], vec![1]]).err(),
        Some(TopologyError::DimensionMismatch)
    );
    let table = DistanceTable::new(vec![vec![0, 7], vec![7, 0]]).ok().unwrap();
    assert_eq!(table.len(), 2);
    assert_eq!(table.key(0, 1), 7);
}
