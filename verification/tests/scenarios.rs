use quack::{DecodedQuack, PowerSumQuack};

fn sums(quack: &PowerSumQuack) -> Vec<u32> {
    quack.power_sums().iter().map(|sum| sum.value()).collect()
}

fn sketch(threshold: usize, identifiers: &[u32]) -> PowerSumQuack {
    let mut quack = PowerSumQuack::new(threshold);
    for x in identifiers {
        quack.insert(*x);
    }
    quack
}

#[test]
fn small_decode_is_in_log_order() {
    let log = vec![1, 2, 3, 4, 5, 6];
    let quack = sketch(3, &log) - sketch(3, &[1, 3, 4]);
    assert_eq!(quack.count(), 3);
    assert_eq!(quack.decode_with_log(&log), vec![2, 5, 6]);
    let shuffled = vec![6, 1, 5, 4, 2, 3];
    assert_eq!(quack.decode_with_log(&shuffled), vec![6, 5, 2]);
}

#[test]
fn suffix_dominates() {
    let log = vec![1, 2, 3, 4, 5, 6];
    let quack = sketch(3, &log) - sketch(3, &[1, 3, 4]);
    let decoded = DecodedQuack::decode(&quack, &log);
    assert_eq!(decoded.total_num_missing(), 3);
    assert_eq!(decoded.num_suffix(), 2);
    assert_eq!(decoded.num_missing(), 1);
    assert_eq!(decoded.missing(), &[1]);
    assert_eq!(decoded.indexes(), &vec![1, 4, 5]);
}

#[test]
fn collisions_in_log_are_all_decoded() {
    let log = vec![1, 2, 2, 3, 4, 5, 6];
    let quack = sketch(4, &log) - sketch(4, &[1, 3, 4]);
    assert_eq!(quack.decode_with_log(&log), vec![2, 2, 5, 6]);
    let decoded = DecodedQuack::decode(&quack, &log);
    assert_eq!(decoded.indexes(), &vec![1, 2, 5, 6]);
    assert_eq!(decoded.num_suffix(), 2);
    assert_eq!(decoded.missing(), &[1, 2]);
}

#[test]
fn incomplete_log_decodes_fewer_than_the_count() {
    let log = vec![1, 2, 3, 4, 5, 6];
    let quack = sketch(3, &log) - sketch(3, &[1, 3, 4]);
    let result = quack.decode_with_log(&log[2..].to_vec());
    assert_eq!(result, vec![5, 6]);
    assert!(result.len() < quack.count() as usize);
}

#[test]
fn threshold_boundary() {
    let log = vec![1, 2, 3, 4, 5, 6];
    let quack = sketch(3, &log) - sketch(3, &log);
    assert_eq!(quack.count(), 0);
    assert_eq!(sums(&quack), vec![0, 0, 0]);
    assert!(quack.to_coeffs().is_empty());
    let mut coeffs = PowerSumQuack::new(3).power_sums().clone();
    quack.to_coeffs_preallocated(&mut coeffs);
    assert!(coeffs.iter().all(|c| c.is_zero()));
    assert!(quack.decode_with_log(&log).is_empty());
    assert_eq!(quack.decode_by_factorization(), Some(vec![]));
    let decoded = DecodedQuack::decode(&quack, &log);
    assert_eq!(decoded.total_num_missing(), 0);
    assert_eq!(decoded.num_suffix(), 0);
    assert_eq!(decoded.num_missing(), 0);
    assert!(decoded.missing().is_empty());
}

#[test]
fn count_at_the_threshold_decodes() {
    let log = vec![10, 20, 30, 40];
    let quack = sketch(4, &log);
    assert_eq!(quack.count() as usize, quack.threshold());
    assert_eq!(quack.decode_with_log(&log), log);
    let mut roots = quack.decode_by_factorization().unwrap();
    roots.sort();
    assert_eq!(roots, log);
}

#[test]
fn factorization_path() {
    let log = vec![1, 2, 3, 4, 5, 6];
    let q1 = sketch(3, &log);
    let q2 = sketch(3, &[1, 3, 4]);
    let quack = q1.clone() - q2.clone();
    let mut roots = quack.decode_by_factorization().unwrap();
    roots.sort();
    assert_eq!(roots, vec![2, 5, 6]);

    // corrupt the first power sum of the second sketch
    let mut bytes = q2.serialize();
    bytes[3] += 1;
    let corrupt = PowerSumQuack::deserialize(&bytes).unwrap();
    let quack = q1 - corrupt;
    assert_eq!(quack.decode_by_factorization(), None);
    // decoding with the log still returns what it finds
    let found = quack.decode_with_log(&log);
    assert!(found.len() <= 3);
    assert!(found.iter().all(|x| log.contains(x)));
}

#[test]
fn factorization_returns_repeated_identifiers() {
    let quack = sketch(4, &[7, 9, 7, 4294967295]);
    let mut roots = quack.decode_by_factorization().unwrap();
    roots.sort();
    // 4294967295 comes back as its residue, 4
    assert_eq!(roots, vec![4, 7, 7, 9]);
}

#[test]
fn count_wraps_at_two_to_the_16() {
    let mut quack = PowerSumQuack::new(1);
    quack.remove(5);
    assert_eq!(quack.count(), 65535);
    assert_eq!(sums(&quack), vec![4294967286]);
    quack.insert(5);
    assert_eq!(quack.count(), 0);
    for _ in 0..65535 {
        quack.insert(1);
    }
    assert_eq!(quack.count(), 65535);
    quack.insert(1);
    assert_eq!(quack.count(), 0);
    assert_eq!(sums(&quack), vec![65536]);
}

#[test]
fn subtraction_of_counts_wraps() {
    let q1 = sketch(3, &[1, 2]);
    let q2 = sketch(3, &[1, 2, 3]);
    let quack = q1 - q2;
    assert_eq!(quack.count(), 65535);
    assert_eq!(sums(&quack), vec![4294967288, 4294967282, 4294967264]);
}

#[test]
fn sketch_with_no_power_sums_counts() {
    let mut quack = PowerSumQuack::new(0);
    assert_eq!(quack.threshold(), 0);
    quack.insert(5);
    quack.insert(6);
    quack.remove(5);
    assert_eq!(quack.count(), 1);
    assert!(quack.power_sums().is_empty());
}

#[test]
fn decode_of_the_whole_log() {
    let log = vec![8, 9, 10];
    let quack = sketch(3, &log);
    let decoded = DecodedQuack::decode(&quack, &log);
    assert_eq!(decoded.indexes(), &vec![0, 1, 2]);
    assert_eq!(decoded.num_suffix(), 3);
    assert_eq!(decoded.num_missing(), 0);
    assert!(decoded.missing().is_empty());
}

#[test]
fn decode_against_an_empty_log() {
    let log: Vec<u32> = vec![];
    let quack = sketch(3, &[8, 9]);
    assert!(quack.decode_with_log(&log).is_empty());
    let decoded = DecodedQuack::decode(&quack, &log);
    assert_eq!(decoded.total_num_missing(), 0);
    assert_eq!(decoded.num_suffix(), 0);
}

#[test]
fn checked_sub_wants_equal_thresholds() {
    let q1 = sketch(3, &[1, 2, 3]);
    let q2 = sketch(2, &[1, 2]);
    assert!(q1.clone().checked_sub(q2.clone()).is_none());
    assert!(q2.checked_sub(q1.clone()).is_none());
    let rest = q1.checked_sub(sketch(3, &[1, 3])).unwrap();
    assert_eq!(rest.count(), 1);
    assert_eq!(sums(&rest), vec![2, 4, 8]);
}
