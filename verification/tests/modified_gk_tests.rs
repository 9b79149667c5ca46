use space_efficient_quantile::modified_gk::sample::Sample;
use space_efficient_quantile::modified_gk::samples_compressor::SamplesCompressor;
use space_efficient_quantile::modified_gk::{Summary, SummaryWriter};

#[test]
fn compress() {
    let mut compressor = SamplesCompressor::new(5);
    for value in 0..9 {
        compressor.push(Sample { value, g: 1, delta: 2 });
    }

    assert_eq!(
        compressor.into_samples(),
        vec![
            Sample { value: 0, g: 1, delta: 2 },
            Sample { value: 3, g: 3, delta: 2 },
            Sample { value: 6, g: 3, delta: 2 },
            Sample { value: 8, g: 2, delta: 2 }
        ]
    );
}

#[test]
fn no_compression() {
    for len in 0..3 {
        let mut compressor = SamplesCompressor::new(1);
        let samples = (0..len)
            .map(|value| Sample { value, g: 1, delta: 1 })
            .collect::<Vec<Sample>>();
        for &sample in &samples {
            compressor.push(sample);
        }
        assert_eq!(compressor.into_samples(), samples);
    }
}

#[test]
fn insert_one_by_one_and_query() {
    // insert [8, 6, 0, 4, 3, 9, 2, 5, 1, 7] one by one, with error bound 1/5
    let mut summary = Summary::new(1, 5);

    // First
    summary.insert_one(8);
    assert_eq!(summary.samples_spec(), vec![(8, 1, 0)]);

    // New minimum
    summary.insert_one(6);
    assert_eq!(summary.samples_spec(), vec![(6, 1, 0), (8, 1, 0)]);

    // New minimum
    summary.insert_one(0);
    assert_eq!(summary.samples_spec(), vec![(0, 1, 0), (6, 1, 0), (8, 1, 0)]);

    summary.insert_one(4);
    assert_eq!(
        summary.samples_spec(),
        vec![(0, 1, 0), (4, 1, 0), (6, 1, 0), (8, 1, 0)],
    );

    // Local compression (cap=2)
    summary.insert_one(3);
    assert_eq!(
        summary.samples_spec(),
        vec![(0, 1, 0), (4, 2, 0), (6, 1, 0), (8, 1, 0)],
    );

    // New maximum + local compression (cap=2)
    summary.insert_one(9);
    assert_eq!(
        summary.samples_spec(),
        vec![(0, 1, 0), (4, 2, 0), (6, 1, 0), (9, 2, 0)],
    );

    summary.insert_one(2);
    assert_eq!(
        summary.samples_spec(),
        vec![(0, 1, 0), (2, 1, 1), (4, 2, 0), (6, 1, 0), (9, 2, 0)],
    );

    // Local compression (cap=3)
    summary.insert_one(5);
    assert_eq!(
        summary.samples_spec(),
        vec![(0, 1, 0), (2, 1, 1), (4, 2, 0), (6, 2, 0), (9, 2, 0)],
    );

    // Local compression (cap=3)
    summary.insert_one(1);
    assert_eq!(
        summary.samples_spec(),
        vec![(0, 1, 0), (2, 2, 1), (4, 2, 0), (6, 2, 0), (9, 2, 0)],
    );

    // Local compression (cap=4)
    summary.insert_one(7);
    assert_eq!(
        summary.samples_spec(),
        vec![(0, 1, 0), (2, 2, 1), (4, 2, 0), (6, 2, 0), (9, 3, 0)],
    );

    // Compression (cap=4)
    summary.compress();
    assert_eq!(
        summary.samples_spec(),
        vec![(0, 1, 0), (4, 4, 0), (6, 2, 0), (9, 3, 0)],
    );

    // Query all ranks: `query_with_error(rank/len)` reports the rank error
    let check_rank = |summary: &Summary, rank: u64, expected_value: i64, rank_error: u64| {
        let (value, error) = summary.query_with_error(rank, summary.len()).unwrap();
        assert_eq!(expected_value, value);
        assert_eq!(rank_error, error);
    };
    check_rank(&summary, 1, 0, 0);
    check_rank(&summary, 2, 0, 1);
    check_rank(&summary, 3, 0, 2);
    check_rank(&summary, 4, 4, 1);
    check_rank(&summary, 5, 4, 0);
    check_rank(&summary, 6, 4, 1);
    check_rank(&summary, 7, 6, 0);
    check_rank(&summary, 8, 6, 1);
    check_rank(&summary, 9, 9, 1);
    check_rank(&summary, 10, 9, 0);
}

#[test]
fn writer() {
    assert_eq!(
        get_samples_spec(1, 5, 3, vec![8, 6, 0]),
        vec![(0, 1, 0), (6, 1, 0), (8, 1, 0)]
    );

    assert_eq!(
        get_samples_spec(1, 5, 3, vec![8, 6, 0, 4, 3, 9]),
        vec![(0, 1, 0), (4, 2, 0), (8, 2, 0), (9, 1, 0)]
    );

    assert_eq!(
        get_samples_spec(1, 5, 3, vec![8, 6, 0, 4, 3, 9, 2, 5, 1]),
        vec![(0, 1, 0), (2, 2, 0), (4, 2, 0), (8, 3, 0), (9, 1, 0)]
    );

    assert_eq!(
        get_samples_spec(1, 5, 3, vec![8, 6, 0, 4, 3, 9, 2, 5, 1, 7]),
        vec![(0, 1, 0), (4, 4, 0), (8, 4, 0), (9, 1, 0)]
    );
}

fn get_samples_spec(
    eps_num: u64,
    eps_den: u64,
    buffer_capacity: usize,
    values: Vec<i64>,
) -> Vec<(i64, u64, u64)> {
    let mut writer = SummaryWriter::with_capacity(eps_num, eps_den, buffer_capacity);
    writer.extend(values);
    writer.into_summary().samples_spec()
}

#[test]
fn ascending_run_stays_exact() {
    // Insert 0..=9 ascending with a tight error bound: every value is kept
    let mut summary = Summary::new(1, 1000);
    for i in 0..10 {
        summary.insert_one(i);
    }
    for (i, &(value, g, delta)) in summary.samples_spec().iter().enumerate() {
        assert_eq!(value, i as i64);
        assert_eq!(g, 1);
        assert_eq!(delta, 0);
    }
    // The median of 0..=9 at rank 5 is 4, answered exactly here
    assert_eq!(summary.query(1, 2), Some(4));
}

#[test]
fn query_on_empty_summary() {
    let summary = Summary::new(1, 10);
    for i in 0..=10 {
        assert_eq!(summary.query(i, 10), None);
        assert_eq!(summary.query_with_error(i, 10), None);
    }
}

#[test]
fn extremes_are_exact() {
    let mut summary = Summary::new(1, 5);
    for &v in &[8, 6, 0, 4, 3, 9, 2, 5, 1, 7] {
        summary.insert_one(v);
    }
    assert_eq!(summary.query(0, 1), Some(0));
    assert_eq!(summary.query(1, 1), Some(9));
}

#[test]
fn merge_adds_lengths() {
    let mut a = Summary::new(1, 10);
    let mut b = Summary::new(1, 10);
    for v in 0..5000 {
        a.insert_one(v);
    }
    for v in 5000..10000 {
        b.insert_one(v);
    }
    a.merge(b);
    assert_eq!(a.len(), 10000);
    // Extremes survive the merge exactly
    assert_eq!(a.query(0, 1), Some(0));
    assert_eq!(a.query(1, 1), Some(9999));
}

#[test]
fn merge_answers_within_twice_the_bound() {
    // Two summaries over halves of a shuffled stream, each with error 1/10;
    // the merged summary answers every rank within 2/10
    let n: i64 = 5000;
    let mut a = Summary::new(1, 10);
    let mut b = Summary::new(1, 10);
    for i in 0..n {
        let v = (i * 2654435761i64) % 10007;
        if i % 2 == 0 {
            a.insert_one(v);
        } else {
            b.insert_one(v);
        }
    }
    let mut all: Vec<i64> = (0..n).map(|i| (i * 2654435761i64) % 10007).collect();
    all.sort();
    a.merge(b);
    assert_eq!(a.len(), n as u64);
    for rank in 1..=(n as u64) {
        let got = a.query(rank, n as u64).unwrap();
        let got_rank_lo = all.iter().position(|&v| v == got).unwrap() as i64 + 1;
        let got_rank_hi = n - all.iter().rev().position(|&v| v == got).unwrap() as i64;
        let desired = rank as i64;
        let err = if desired < got_rank_lo {
            got_rank_lo - desired
        } else if desired > got_rank_hi {
            desired - got_rank_hi
        } else {
            0
        };
        assert!(err * 10 <= 2 * n, "rank {} -> value {} err {}", rank, got, err);
    }
}

#[test]
fn batch_and_stream_agree_within_bound() {
    // The same values through the writer and one by one give answers
    // within the error bound of each other
    let values: Vec<i64> = (0..1000).map(|i| (i * 48271) % 2003).collect();
    let mut one_by_one = Summary::new(1, 10);
    for &v in &values {
        one_by_one.insert_one(v);
    }
    let mut writer = SummaryWriter::with_capacity(1, 10, 100);
    writer.extend(values.clone());
    let batched = writer.into_summary();

    let mut sorted = values.clone();
    sorted.sort();
    let n = values.len() as u64;
    for &(q_num, q_den) in &[(0u64, 1u64), (1, 4), (1, 2), (3, 4), (1, 1)] {
        for summary in [&one_by_one, &batched] {
            let got = summary.query(q_num, q_den).unwrap();
            let rank = space_efficient_quantile::quantile_to_rank(q_num, q_den, n) as usize;
            let lo = rank.saturating_sub(1 + n as usize / 10);
            let hi = (rank + n as usize / 10).min(sorted.len());
            let window = &sorted[lo..hi];
            assert!(window.contains(&got), "quantile {}/{} -> {}", q_num, q_den, got);
        }
    }
}
