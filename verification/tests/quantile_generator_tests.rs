use space_efficient_quantile::modified_gk::Summary;
use space_efficient_quantile::quantile_generator::{
    RandomGenerator, SequentialGenerator, SequentialOrder,
};
use space_efficient_quantile::quantile_to_rank;

fn check_one(mut values: Vec<i64>, q_num: u64, q_den: u64, value: i64, num: u64) {
    assert_eq!(values.len() as u64, num);
    values.sort();
    let rank = quantile_to_rank(q_num, q_den, num) as usize;
    assert_eq!(value, values[rank - 1], "sorted values: {:?}", values);
}

fn check_all(q_num: u64, q_den: u64, value: i64, num: u64) {
    let it = RandomGenerator::new(q_num, q_den, value, num, 17);
    check_one(it.into_vec(), q_num, q_den, value, num);

    let it = SequentialGenerator::new(q_num, q_den, value, num, SequentialOrder::Ascending);
    check_one(it.into_vec(), q_num, q_den, value, num);

    let it = SequentialGenerator::new(q_num, q_den, value, num, SequentialOrder::Descending);
    check_one(it.into_vec(), q_num, q_den, value, num);
}

#[test]
fn mod_median() {
    check_all(1, 2, 17, 1);
    check_all(1, 2, 17, 2);
    check_all(1, 2, 17, 3);
    check_all(1, 2, 17, 1000);
    check_all(1, 2, 17, 1001);
}

#[test]
fn other_quantiles() {
    for &(q_num, q_den) in &[(0u64, 1u64), (1, 10), (1, 5), (3, 4), (99, 100), (1, 1)] {
        for &num in &[1u64, 2, 5, 10, 100, 1000, 1001] {
            check_all(q_num, q_den, 17, num);
        }
    }
}

#[test]
fn respect_seed() {
    // The same seed gives the same sequence; different seeds differ
    let a = RandomGenerator::new(1, 2, 17, 7, 1).into_vec();
    let b = RandomGenerator::new(1, 2, 17, 7, 1).into_vec();
    assert_eq!(a, b);
    let c = RandomGenerator::new(1, 2, 17, 7, 2).into_vec();
    let d = RandomGenerator::new(1, 2, 17, 7, 2).into_vec();
    assert_eq!(c, d);
    // With 7 values around the target there is essentially no chance two
    // seeds produce the same draw sequence
    assert_ne!(a, c);
}

#[test]
fn generated_median_is_answered_exactly() {
    // Insert the 7 generated values with a tight error bound: the summary
    // retains every value, so the median query returns the target exactly
    let values = RandomGenerator::new(1, 2, 17, 7, 1).into_vec();
    let mut summary = Summary::new(1, 100);
    for &v in &values {
        summary.insert_one(v);
    }
    assert_eq!(summary.query(1, 2), Some(17));
}

#[test]
fn sequential_runs() {
    let asc = SequentialGenerator::new(1, 2, 100, 5, SequentialOrder::Ascending).into_vec();
    assert_eq!(asc, vec![98, 99, 100, 101, 102]);
    let desc = SequentialGenerator::new(1, 2, 100, 5, SequentialOrder::Descending).into_vec();
    assert_eq!(desc, vec![102, 101, 100, 99, 98]);
}

#[test]
fn generator_size_hint() {
    let mut g = SequentialGenerator::new(1, 2, 0, 4, SequentialOrder::Ascending);
    assert_eq!(g.size_hint(), 4);
    g.next();
    assert_eq!(g.size_hint(), 3);
}
