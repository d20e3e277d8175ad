use quack::arithmetic::ModularInteger;
use quack::PowerSumQuack;

fn sums(quack: &PowerSumQuack) -> Vec<u32> {
    quack.power_sums().iter().map(|sum| sum.value()).collect()
}

fn values(coeffs: &Vec<ModularInteger>) -> Vec<u32> {
    coeffs.iter().map(|coeff| coeff.value()).collect()
}

#[test]
fn test_quack_constructor() {
    let size = 3;
    let quack = PowerSumQuack::new(size);
    assert_eq!(quack.count(), 0);
    assert_eq!(quack.power_sums().len(), size);
    for i in 0..size {
        assert_eq!(quack.power_sums()[i].value(), 0);
    }
}

#[test]
fn test_quack_insert_no_modulus() {
    let mut quack = PowerSumQuack::new(3);
    quack.insert(1);
    assert_eq!(quack.count(), 1);
    assert_eq!(sums(&quack), vec![1, 1, 1]);
    quack.insert(2);
    assert_eq!(quack.count(), 2);
    assert_eq!(sums(&quack), vec![3, 5, 9]);
    quack.insert(3);
    assert_eq!(quack.count(), 3);
    assert_eq!(sums(&quack), vec![6, 14, 36]);
}

#[test]
fn test_quack_insert_with_modulus() {
    let mut quack = PowerSumQuack::new(5);
    quack.insert(1143971604);
    quack.insert(734067013);
    quack.insert(130412990);
    quack.insert(2072080394);
    quack.insert(748120679);
    assert_eq!(quack.count(), 5);
    assert_eq!(
        sums(&quack),
        vec![533685389, 1847039354, 2727275532, 1272499396, 2347942976]
    );
}

#[test]
fn test_quack_to_polynomial_coefficients() {
    let mut quack = PowerSumQuack::new(5);
    quack.insert(3616712547);
    quack.insert(2333013068);
    quack.insert(2234311686);
    quack.insert(2462729946);
    quack.insert(670144905);
    let mut coeffs = (0..5).map(|_| ModularInteger::zero()).collect();
    quack.to_coeffs_preallocated(&mut coeffs);
    assert_eq!(coeffs.len(), 5);
    assert_eq!(
        values(&coeffs),
        vec![1567989721, 1613776244, 517289688, 17842621, 3562381446]
    );
}

#[test]
fn test_quack_sub_num_missing_eq_threshold() {
    let mut coeffs = (0..3).map(|_| ModularInteger::zero()).collect();
    let mut q1 = PowerSumQuack::new(3);
    q1.insert(1);
    q1.insert(2);
    q1.insert(3);
    q1.insert(4);
    q1.insert(5);

    let quack = q1.clone() - q1.clone();
    assert_eq!(quack.count(), 0);
    assert_eq!(sums(&quack), vec![0, 0, 0]);
    quack.to_coeffs_preallocated(&mut coeffs);
    assert_eq!(values(&coeffs), vec![0, 0, 0]);
}

#[test]
fn test_quack_sub_num_missing_lt_threshold() {
    let mut coeffs = (0..3).map(|_| ModularInteger::zero()).collect();
    let mut q1 = PowerSumQuack::new(3);
    q1.insert(1);
    q1.insert(2);
    q1.insert(3);
    q1.insert(4);
    q1.insert(5);
    let mut q2 = PowerSumQuack::new(3);
    q2.insert(1);
    q2.insert(2);
    q2.insert(3);

    // Missing 2 with threshold 3
    let quack = q1 - q2;
    assert_eq!(quack.count(), 2);
    assert_eq!(sums(&quack), vec![9, 41, 189]);
    quack.to_coeffs_preallocated(&mut coeffs);
    assert_eq!(values(&coeffs), vec![4294967282, 20, 0]);
}

#[test]
fn test_quack_serialize() {
    let mut quack = PowerSumQuack::new(10);
    let bytes = quack.serialize();
    // expected length is 4*10+2 = 42 bytes (ten u32 sums and a u16 count)
    assert_eq!(bytes.len(), 42);
    assert_eq!(&bytes[..], &[0; 42], "no data yet");
    quack.insert(1);
    quack.insert(2);
    quack.insert(3);
    let bytes = quack.serialize();
    assert_eq!(bytes.len(), 42);
    assert_ne!(&bytes[..], &[0; 42]);
}

#[test]
fn test_quack_deserialize_empty() {
    let q1 = PowerSumQuack::new(10);
    let bytes = q1.serialize();
    let q2: PowerSumQuack = PowerSumQuack::deserialize(&bytes).unwrap();
    assert_eq!(q1.count(), q2.count());
    assert_eq!(sums(&q1), sums(&q2));
}

#[test]
fn test_quack_deserialize_with_data() {
    let mut q1 = PowerSumQuack::new(10);
    q1.insert(1);
    q1.insert(2);
    q1.insert(3);
    let bytes = q1.serialize();
    let q2: PowerSumQuack = PowerSumQuack::deserialize(&bytes).unwrap();
    assert_eq!(q1.count(), q2.count());
    assert_eq!(sums(&q1), sums(&q2));
}

#[test]
fn test_decode_log_empty_quack() {
    let quack = PowerSumQuack::new(10);
    let log = vec![1, 2, 3];
    let result = quack.decode_with_log(&log);
    assert!(result.is_empty());
}

#[test]
fn test_quack_decode_log() {
    let log = vec![1, 2, 3, 4, 5, 6];
    let mut q1 = PowerSumQuack::new(3);
    for x in &log {
        q1.insert(*x);
    }
    let mut q2 = PowerSumQuack::new(3);
    q2.insert(1);
    q2.insert(3);
    q2.insert(4);

    // Check the result
    let quack = q1 - q2;
    let mut result = quack.decode_with_log(&log);
    assert_eq!(result.len(), 3);
    result.sort();
    assert_eq!(result, vec![2, 5, 6]);
}

#[test]
fn test_quack_decode_log_with_collisions() {
    let log = vec![1, 2, 2, 3, 4, 5, 6];
    let mut q1 = PowerSumQuack::new(4);
    for x in &log {
        q1.insert(*x);
    }
    let mut q2 = PowerSumQuack::new(4);
    q2.insert(1);
    q2.insert(3);
    q2.insert(4);

    // Check the result
    let quack = q1 - q2;
    let mut result = quack.decode_with_log(&log);
    assert_eq!(result.len(), 4);
    result.sort();
    assert_eq!(result, vec![2, 2, 5, 6]);
}

#[test]
fn test_quack_decode_log_incomplete() {
    let log = vec![1, 2, 3, 4, 5, 6];
    let mut q1 = PowerSumQuack::new(3);
    for x in &log {
        q1.insert(*x);
    }
    let mut q2 = PowerSumQuack::new(3);
    q2.insert(1);
    q2.insert(3);
    q2.insert(4);

    // Check the result
    let quack = q1 - q2;
    let mut result = quack.decode_with_log(&log[2..].to_vec());
    assert_eq!(result.len(), 2);
    result.sort();
    assert_eq!(result, vec![5, 6]);
}

#[test]
fn test_decode_factor_empty_quack() {
    let quack = PowerSumQuack::new(10);
    let result = quack.decode_by_factorization();
    assert!(result.is_some());
    assert!(result.unwrap().is_empty());
}

#[test]
fn test_quack_decode_factor() {
    let log = vec![1, 2, 3, 4, 5, 6];
    let mut q1 = PowerSumQuack::new(3);
    for x in &log {
        q1.insert(*x);
    }
    let mut q2 = PowerSumQuack::new(3);
    q2.insert(1);
    q2.insert(3);
    q2.insert(4);

    // Check the result
    let quack = q1 - q2;
    let result = quack.decode_by_factorization();
    assert!(result.is_some());
    let mut result = result.unwrap();
    assert_eq!(result.len(), 3);
    result.sort();
    assert_eq!(result, vec![2, 5, 6]);
}

#[test]
fn test_quack_decode_cant_factor() {
    let log = vec![1, 2, 3, 4, 5, 6];
    let mut q1 = PowerSumQuack::new(3);
    for x in &log {
        q1.insert(*x);
    }
    let mut q2 = PowerSumQuack::new(3);
    q2.insert(1);
    q2.insert(3);
    q2.insert(4);
    // mess up the power sums: add one to the first
    let mut bytes = q2.serialize();
    assert_eq!(&bytes[..4], &[0, 0, 0, 8]);
    bytes[3] += 1;
    let q2 = PowerSumQuack::deserialize(&bytes).unwrap();
    assert_eq!(sums(&q2)[0], 9);

    // Check the result
    let quack = q1 - q2;
    let result = quack.decode_by_factorization();
    assert!(result.is_none());
}
