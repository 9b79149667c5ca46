use space_efficient_quantile::gk::sample::Sample;
use space_efficient_quantile::gk::Summary;

#[test]
fn ascending_insertion() {
    let mut s = Summary::new(1, 5);

    for i in 0..10 {
        s.insert_without_compression(i);
    }

    let samples = s.samples_spec();
    assert_eq!(samples.len(), 10);
    for (i, &(value, g, delta)) in samples.iter().enumerate() {
        assert_eq!(value, i as i64);
        assert_eq!(g, 1);
        assert_eq!(delta, 0);
    }
}

#[test]
fn unordered_insertion() {
    let mut s = Summary::new(1, 5);

    s.insert_without_compression(0);
    s.insert_without_compression(9);
    for i in 1..9 {
        s.insert_without_compression(i);
    }

    let samples = s.samples_spec();
    assert_eq!(samples.len(), 10);
    for (i, &(value, g, delta)) in samples.iter().enumerate() {
        assert_eq!(value, i as i64);
        assert_eq!(g, 1);
        // floor(2 * (i + 2) / 5) at the moment value i was inserted
        let expected_delta = 2 * (i as u64 + 2) / 5;
        assert_eq!(delta, if i == 0 || i == 9 { 0 } else { expected_delta });
    }
}

#[test]
fn bands() {
    let results: Vec<Vec<u64>> = vec![
        vec![0],
        vec![1, 0],
        vec![2, 1, 0],
        vec![2, 1, 1, 0],
        vec![3, 2, 2, 1, 0],
        vec![3, 2, 2, 1, 1, 0],
        vec![3, 2, 2, 2, 2, 1, 0],
        vec![3, 2, 2, 2, 2, 1, 1, 0],
        vec![4, 3, 3, 3, 3, 2, 2, 1, 0],
        vec![4, 3, 3, 3, 3, 2, 2, 1, 1, 0],
        vec![4, 3, 3, 3, 3, 2, 2, 2, 2, 1, 0],
        vec![4, 3, 3, 3, 3, 2, 2, 2, 2, 1, 1, 0],
        vec![4, 3, 3, 3, 3, 3, 3, 3, 3, 2, 2, 1, 0],
        vec![4, 3, 3, 3, 3, 3, 3, 3, 3, 2, 2, 1, 1, 0],
        vec![4, 3, 3, 3, 3, 3, 3, 3, 3, 2, 2, 2, 2, 1, 0],
        vec![4, 3, 3, 3, 3, 3, 3, 3, 3, 2, 2, 2, 2, 1, 1, 0],
        vec![5, 4, 4, 4, 4, 4, 4, 4, 4, 3, 3, 3, 3, 2, 2, 1, 0],
        vec![5, 4, 4, 4, 4, 4, 4, 4, 4, 3, 3, 3, 3, 2, 2, 1, 1, 0],
        vec![5, 4, 4, 4, 4, 4, 4, 4, 4, 3, 3, 3, 3, 2, 2, 2, 2, 1, 0],
        vec![5, 4, 4, 4, 4, 4, 4, 4, 4, 3, 3, 3, 3, 2, 2, 2, 2, 1, 1, 0],
        vec![
            5, 4, 4, 4, 4, 4, 4, 4, 4, 3, 3, 3, 3, 3, 3, 3, 3, 2, 2, 1, 0,
        ],
        vec![
            5, 4, 4, 4, 4, 4, 4, 4, 4, 3, 3, 3, 3, 3, 3, 3, 3, 2, 2, 1, 1, 0,
        ],
        vec![
            5, 4, 4, 4, 4, 4, 4, 4, 4, 3, 3, 3, 3, 3, 3, 3, 3, 2, 2, 2, 2, 1, 0,
        ],
        vec![
            5, 4, 4, 4, 4, 4, 4, 4, 4, 3, 3, 3, 3, 3, 3, 3, 3, 2, 2, 2, 2, 1, 1, 0,
        ],
        vec![
            5, 4, 4, 4, 4, 4, 4, 4, 4, 4, 4, 4, 4, 4, 4, 4, 4, 3, 3, 3, 3, 2, 2, 1, 0,
        ],
        vec![
            5, 4, 4, 4, 4, 4, 4, 4, 4, 4, 4, 4, 4, 4, 4, 4, 4, 3, 3, 3, 3, 2, 2, 1, 1, 0,
        ],
        vec![
            5, 4, 4, 4, 4, 4, 4, 4, 4, 4, 4, 4, 4, 4, 4, 4, 4, 3, 3, 3, 3, 2, 2, 2, 2, 1, 0,
        ],
        vec![
            5, 4, 4, 4, 4, 4, 4, 4, 4, 4, 4, 4, 4, 4, 4, 4, 4, 3, 3, 3, 3, 2, 2, 2, 2, 1, 1, 0,
        ],
        vec![
            5, 4, 4, 4, 4, 4, 4, 4, 4, 4, 4, 4, 4, 4, 4, 4, 4, 3, 3, 3, 3, 3, 3, 3, 3, 2, 2, 1,
            0,
        ],
        vec![
            5, 4, 4, 4, 4, 4, 4, 4, 4, 4, 4, 4, 4, 4, 4, 4, 4, 3, 3, 3, 3, 3, 3, 3, 3, 2, 2, 1,
            1, 0,
        ],
        vec![
            5, 4, 4, 4, 4, 4, 4, 4, 4, 4, 4, 4, 4, 4, 4, 4, 4, 3, 3, 3, 3, 3, 3, 3, 3, 2, 2, 2,
            2, 1, 0,
        ],
    ];

    for (p, row) in results.iter().enumerate() {
        for (delta, band) in row.iter().enumerate() {
            assert_eq!(
                Summary::band(delta as u64, p as u64),
                *band,
                "band({}, {}) = {}",
                delta,
                p,
                band
            );
        }
    }
}

#[test]
fn query_empty() {
    let s = Summary::new(1, 10);
    for i in 0..=10 {
        assert_eq!(s.query(i, 10), None);
    }
}

#[test]
fn query_full() {
    let mut s = Summary::new(1, 1000);
    for i in 0..20 {
        s.insert_without_compression(i);
    }
    for i in 0u64..20 {
        assert_eq!(s.query(i + 1, 20), Some(i as i64));
    }
}

#[test]
fn query() {
    // Represent the 20 values 1..=20 with 7 samples
    let values = vec![1, 2, 4, 7, 11, 16, 20];
    let gs = vec![1, 1, 2, 3, 4, 5, 4];
    let samples: Vec<Sample> = values
        .iter()
        .zip(gs)
        .map(|(&value, g)| Sample { value, g, delta: 0, band: 0 })
        .collect();
    // max(g + delta) <= 2 * epsilon * n with epsilon = 5 / 40
    let s = Summary::from_parts(samples, 5, 40, 20);

    let expected_values = vec![
        1, 2, 2, 4, 4, 7, 7, 7, 7, 11, 11, 11, 11, 16, 16, 16, 16, 16, 20, 20,
    ];
    for (i, &expected) in expected_values.iter().enumerate() {
        assert_eq!(s.query(i as u64 + 1, 20), Some(expected));
    }
}

#[test]
fn check_max_error() {
    // Insert shuffled values and check every rank stays within the bound
    fn check(eps_num: u64, eps_den: u64, num: i64) {
        let mut s = Summary::new(eps_num, eps_den);
        let mut values: Vec<i64> = Vec::new();
        for i in 0..num {
            let v = (i * 2654435761i64) % (num * 7 + 1);
            values.push(v);
            s.insert_one(v);
        }
        values.sort();
        for desired_rank in 1..=(num as u64) {
            let queried = s.query(desired_rank, num as u64).unwrap();
            let lo = values.iter().position(|&v| v == queried).unwrap() as i64 + 1;
            let hi = num - values.iter().rev().position(|&v| v == queried).unwrap() as i64;
            let desired = desired_rank as i64;
            let err = if desired < lo {
                lo - desired
            } else if desired > hi {
                desired - hi
            } else {
                0
            };
            assert!(
                err as u64 * eps_den <= eps_num * num as u64,
                "desired_rank={}, queried={}, err={}",
                desired_rank,
                queried,
                err
            );
        }
        // The extreme quantiles stay within the allowance too (the baseline
        // may answer them with a qualifying tie, not necessarily exactly)
        let lowest = s.query(0, 1).unwrap();
        let highest = s.query(1, 1).unwrap();
        let low_rank = values.iter().position(|&v| v == lowest).unwrap() as u64 + 1;
        let high_rank = num as u64 - values.iter().rev().position(|&v| v == highest).unwrap() as u64;
        assert!((low_rank - 1) * eps_den <= eps_num * num as u64);
        assert!((num as u64 - high_rank) * eps_den <= eps_num * num as u64);
    }

    check(1, 10, 10);
    check(1, 10, 100);
    check(1, 10, 1000);
    check(1, 5, 10);
    check(1, 5, 100);
    check(1, 5, 1000);
    check(1, 100, 100);
    check(1, 100, 1000);
}

fn consume_generator(values: &[i64], summaries: &mut [&mut Summary]) -> Vec<i64> {
    let mut sorted = Vec::new();
    for (i, &value) in values.iter().enumerate() {
        sorted.push(value);
        summaries[i % summaries.len()].insert_one(value);
    }
    sorted.sort();
    sorted
}

fn check_all_ranks(s: &Summary, values: &[i64], err_num: u64, err_den: u64) {
    let num = s.len();
    for desired_rank in 1..=num {
        let queried = s.query(desired_rank, num).unwrap();
        let lo = values.iter().position(|&v| v == queried).unwrap() as i64 + 1;
        let hi = values.len() as i64 - values.iter().rev().position(|&v| v == queried).unwrap() as i64;
        let desired = desired_rank as i64;
        let err = if desired < lo {
            lo - desired
        } else if desired > hi {
            desired - hi
        } else {
            0
        };
        assert!(
            err as u64 * err_den <= err_num * num,
            "desired_rank={}, queried={}, err={}",
            desired_rank,
            queried,
            err
        );
    }
}

#[test]
fn check_merge_error() {
    // Consume one stream into two summaries, then merge them; the merged
    // summary answers every rank within twice the error bound
    let values = space_efficient_quantile::quantile_generator::RandomGenerator::new(
        1, 2, 17, 10_000, 17,
    )
    .into_vec();
    let mut s1 = Summary::new(1, 10);
    let mut s2 = Summary::new(1, 10);
    let sorted = consume_generator(&values, &mut [&mut s1, &mut s2]);

    s1.merge(s2);
    check_all_ranks(&s1, &sorted, 2, 10);
}

#[test]
fn check_tree_merge_error() {
    // Eight summaries merged in a tree shape answer within 8 times the bound
    let values = space_efficient_quantile::quantile_generator::RandomGenerator::new(
        1, 2, 17, 10_000, 17,
    )
    .into_vec();
    let mut summaries: Vec<Summary> = (0..8).map(|_| Summary::new(1, 10)).collect();
    let mut sorted = Vec::new();
    for (i, &value) in values.iter().enumerate() {
        sorted.push(value);
        summaries[i % 8].insert_one(value);
    }
    sorted.sort();

    // Merge pairwise: (0,1) (2,3) (4,5) (6,7), then (0,2) (4,6), then (0,4)
    let s8 = summaries.pop().unwrap();
    let mut s7 = summaries.pop().unwrap();
    let s6 = summaries.pop().unwrap();
    let mut s5 = summaries.pop().unwrap();
    let s4 = summaries.pop().unwrap();
    let mut s3 = summaries.pop().unwrap();
    let s2 = summaries.pop().unwrap();
    let mut s1 = summaries.pop().unwrap();
    s1.merge(s2);
    s3.merge(s4);
    s5.merge(s6);
    s7.merge(s8);
    s1.merge(s3);
    s5.merge(s7);
    s1.merge(s5);

    check_all_ranks(&s1, &sorted, 8, 10);
}

#[test]
fn check_list_merge_error() {
    // Eight summaries merged sequentially into the first answer within
    // 8 times the bound
    let values = space_efficient_quantile::quantile_generator::RandomGenerator::new(
        1, 2, 17, 10_000, 17,
    )
    .into_vec();
    let mut summaries: Vec<Summary> = (0..8).map(|_| Summary::new(1, 10)).collect();
    let mut sorted = Vec::new();
    for (i, &value) in values.iter().enumerate() {
        sorted.push(value);
        summaries[i % 8].insert_one(value);
    }
    sorted.sort();

    let mut merged = summaries.remove(0);
    for other in summaries {
        merged.merge(other);
    }

    check_all_ranks(&merged, &sorted, 8, 10);
}
