use quack::arithmetic::{ModularInteger, MonicPolynomialEvaluator};
use quack::montgomery::MontgomeryQuack;
use quack::power_table::PowerTableQuack;
use quack::{DecodedQuack, PowerSumQuack};

fn sums(quack: &PowerSumQuack) -> Vec<u32> {
    quack.power_sums().iter().map(|sum| sum.value()).collect()
}

fn sketch(threshold: usize, identifiers: &[u32]) -> PowerSumQuack {
    let mut quack = PowerSumQuack::new(threshold);
    for x in identifiers {
        quack.insert(*x);
    }
    quack
}

#[test]
fn insert_then_remove_changes_nothing() {
    let mut quack = sketch(4, &[10, 4294967295, 123456789]);
    let before = sums(&quack);
    for x in [0u32, 1, 70000, 4294967290, 4294967295] {
        quack.insert(x);
        assert_eq!(quack.count(), 4);
        quack.remove(x);
        assert_eq!(quack.count(), 3);
        assert_eq!(sums(&quack), before);
    }
}

#[test]
fn remove_then_insert_changes_nothing() {
    let mut quack = sketch(4, &[10, 20]);
    let before = sums(&quack);
    quack.remove(3000000000);
    quack.insert(3000000000);
    assert_eq!(quack.count(), 2);
    assert_eq!(sums(&quack), before);
}

#[test]
fn order_of_inserts_does_not_matter() {
    let forward = sketch(5, &[1143971604, 734067013, 130412990, 2072080394, 748120679]);
    let backward = sketch(5, &[748120679, 2072080394, 130412990, 734067013, 1143971604]);
    let mixed = sketch(5, &[130412990, 1143971604, 748120679, 734067013, 2072080394]);
    assert_eq!(sums(&forward), sums(&backward));
    assert_eq!(sums(&forward), sums(&mixed));
    assert_eq!(forward.count(), backward.count());
    assert_eq!(forward.serialize(), mixed.serialize());
}

#[test]
fn power_sums_are_sums_of_powers() {
    // 4294967295 is congruent to 4
    let quack = sketch(4, &[4294967295, 70000, 5]);
    assert_eq!(quack.count(), 3);
    assert_eq!(
        sums(&quack),
        vec![70009, 605032750, 3912140929, 2737326721]
    );
}

#[test]
fn difference_of_union_and_part_is_the_rest() {
    let rest = [2u32, 5, 6, 4000000000];
    let part = [1u32, 3, 4, 77, 77];
    let all = [1u32, 2, 77, 3, 4000000000, 4, 5, 77, 6];
    let difference = sketch(6, &all) - sketch(6, &part);
    let expected = sketch(6, &rest);
    assert_eq!(difference.count(), 4);
    assert_eq!(sums(&difference), sums(&expected));
    assert_eq!(difference.serialize(), expected.serialize());
}

#[test]
fn coefficients_vanish_at_what_is_in_the_sketch_only() {
    let identifiers = [3616712547u32, 2333013068, 2234311686, 2462729946, 670144905];
    let quack = sketch(5, &identifiers);
    let coeffs = quack.to_coeffs();
    assert_eq!(coeffs.len(), 5);
    for x in identifiers {
        assert!(MonicPolynomialEvaluator::eval(&coeffs, x).is_zero());
    }
    for x in [0u32, 1, 670144904, 670144906, 4294967295] {
        assert!(!MonicPolynomialEvaluator::eval(&coeffs, x).is_zero());
    }
}

#[test]
fn coefficients_are_those_of_the_product_of_linear_factors() {
    // (x - 2)(x - 5)(x - 6) = x^3 - 13 x^2 + 52 x - 60
    let quack = sketch(3, &[2, 5, 6]);
    assert_eq!(sums(&quack), vec![13, 65, 349]);
    let coeffs: Vec<u32> = quack.to_coeffs().iter().map(|c| c.value()).collect();
    assert_eq!(coeffs, vec![4294967278, 52, 4294967231]);
}

#[test]
fn coefficients_do_not_depend_on_what_the_buffer_held() {
    let quack = sketch(3, &[2, 5, 6]);
    let mut coeffs: Vec<ModularInteger> = vec![
        ModularInteger::new(11),
        ModularInteger::new(22),
        ModularInteger::new(33),
    ];
    quack.to_coeffs_preallocated(&mut coeffs);
    let coeffs: Vec<u32> = coeffs.iter().map(|c| c.value()).collect();
    assert_eq!(coeffs, vec![4294967278, 52, 4294967231]);
}

#[test]
fn coefficients_into_an_empty_buffer() {
    let quack = sketch(3, &[2, 5, 6]);
    let mut coeffs: Vec<ModularInteger> = vec![];
    quack.to_coeffs_preallocated(&mut coeffs);
    assert!(coeffs.is_empty());
}

#[test]
fn colliding_identifier_is_decoded_too() {
    // 4294967293 is congruent to 2 modulo the modulus
    let log = vec![1, 4294967293, 3, 2];
    let quack = sketch(2, &[2]);
    assert_eq!(quack.decode_with_log(&log), vec![4294967293, 2]);
}

#[test]
fn accelerated_sketches_hold_the_same_power_sums() {
    let identifiers = [1u32, 65535, 65536, 70000, 4294967290, 4294967295, 1143971604];
    let plain = sketch(5, &identifiers);
    let mut table = PowerTableQuack::new(5);
    let mut montgomery = MontgomeryQuack::new(5);
    for x in identifiers {
        table.insert(x);
        montgomery.insert(x);
    }
    assert_eq!(table.count(), plain.count());
    assert_eq!(montgomery.count(), plain.count());
    assert_eq!(table.threshold(), 5);
    assert_eq!(montgomery.threshold(), 5);
    assert_eq!(sums(&table.to_power_sum_quack()), sums(&plain));
    assert_eq!(sums(&montgomery.to_power_sum_quack()), sums(&plain));
    table.remove(65535);
    table.remove(4294967295);
    montgomery.remove(65535);
    montgomery.remove(4294967295);
    let fewer = sketch(5, &[1, 65536, 70000, 4294967290, 1143971604]);
    assert_eq!(sums(&table.to_power_sum_quack()), sums(&fewer));
    assert_eq!(sums(&montgomery.to_power_sum_quack()), sums(&fewer));
}

#[test]
fn accelerated_sketches_decode_the_same() {
    let log = vec![1u32, 2, 70000, 3, 4, 4000000000, 5, 6];
    let seen = [1u32, 3, 4, 5];
    let plain = sketch(4, &log) - sketch(4, &seen);
    let mut table = PowerTableQuack::new(4);
    let mut table_seen = PowerTableQuack::new(4);
    let mut montgomery = MontgomeryQuack::new(4);
    let mut montgomery_seen = MontgomeryQuack::new(4);
    for x in &log {
        table.insert(*x);
        montgomery.insert(*x);
    }
    for x in seen {
        table_seen.insert(x);
        montgomery_seen.insert(x);
    }
    let table = table - table_seen;
    let montgomery = montgomery - montgomery_seen;
    let expected = vec![2u32, 70000, 4000000000, 6];
    assert_eq!(plain.decode_with_log(&log), expected);
    assert_eq!(table.decode_with_log(&log), expected);
    assert_eq!(montgomery.decode_with_log(&log), expected);
    assert_eq!(montgomery.clone().count(), 4);
}

#[test]
fn suffix_is_the_longest_tail_of_the_log() {
    let cases: Vec<(Vec<u32>, Vec<u32>, usize, Vec<usize>)> = vec![
        // log, seen, num_suffix, missing
        (vec![1, 2, 3, 4, 5, 6], vec![1, 3, 4], 2, vec![1]),
        (vec![1, 2, 3, 4, 5, 6], vec![1, 2, 3, 4, 5], 1, vec![]),
        (vec![1, 2, 3, 4, 5, 6], vec![2, 3, 4, 5, 6], 0, vec![0]),
        (vec![1, 2, 3, 4, 5, 6], vec![1, 2, 3], 3, vec![]),
        (vec![1, 2, 3, 4, 5, 6], vec![1, 2, 4], 2, vec![2]),
        (vec![1, 2, 3, 4, 5, 6], vec![1, 2, 3, 4, 5, 6], 0, vec![]),
        (vec![1, 2, 3, 4, 5, 6], vec![2, 4, 6], 0, vec![0, 2, 4]),
    ];
    for (log, seen, num_suffix, missing) in cases {
        let quack = sketch(3, &log) - sketch(3, &seen);
        let decoded = DecodedQuack::decode(&quack, &log);
        assert_eq!(decoded.num_suffix(), num_suffix);
        assert_eq!(decoded.missing(), &missing[..]);
        assert_eq!(decoded.num_missing(), missing.len());
        assert_eq!(decoded.total_num_missing(), num_suffix + missing.len());
    }
}

#[test]
fn every_kind_of_sketch_reaches_the_same_state() {
    let identifiers = vec![5u32, 65535, 65536, 4294967295, 2072080394, 5];
    let mut plain = <PowerSumQuack as quack::Quack>::new(4);
    let mut table = <PowerTableQuack as quack::Quack>::new(4);
    let mut montgomery = <MontgomeryQuack as quack::Quack>::new(4);
    quack::quack::insert_all(&mut plain, &identifiers);
    quack::quack::insert_all(&mut table, &identifiers);
    quack::quack::insert_all(&mut montgomery, &identifiers);
    assert_eq!(sums(&plain), sums(&sketch(4, &identifiers)));
    assert_eq!(sums(&table.to_power_sum_quack()), sums(&plain));
    assert_eq!(sums(&montgomery.to_power_sum_quack()), sums(&plain));
    assert_eq!(quack::Quack::count(&table), 6);
    assert_eq!(quack::Quack::count(&montgomery), 6);
    assert_eq!(quack::Quack::threshold(&montgomery), 4);
    quack::Quack::remove(&mut montgomery, 5);
    quack::Quack::remove(&mut plain, 5);
    assert_eq!(sums(&montgomery.to_power_sum_quack()), sums(&plain));
}

#[test]
fn factoring_returns_what_was_put_in() {
    // identifiers from a linear congruential generator
    let mut seed: u64 = 0x5DEECE66D;
    let mut next = || {
        seed = seed.wrapping_mul(6364136223846793005).wrapping_add(1442695040888963407);
        (seed >> 32) as u32
    };
    for round in 0..24usize {
        let size = 1 + round % 12;
        let mut identifiers: Vec<u32> = (0..size).map(|_| next()).collect();
        if round % 3 == 0 && size > 1 {
            // a repeated identifier
            identifiers[0] = identifiers[size - 1];
        }
        let quack = sketch(12, &identifiers);
        let mut roots = quack.decode_by_factorization().unwrap();
        roots.sort();
        let mut expected: Vec<u32> = identifiers.iter().map(|x| x % 4294967291).collect();
        expected.sort();
        assert_eq!(roots, expected);
        let mut log = identifiers.clone();
        log.push(next());
        assert_eq!(quack.decode_with_log(&log), identifiers);
    }
}
