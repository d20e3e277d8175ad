use quack::PowerSumQuack;

fn sums(quack: &PowerSumQuack) -> Vec<u32> {
    quack.power_sums().iter().map(|sum| sum.value()).collect()
}

#[test]
fn serialize_is_big_endian_sums_then_count() {
    let mut quack = PowerSumQuack::new(2);
    quack.insert(258);
    // power sums 258 = 0x0102 and 258^2 = 66564 = 0x010404, count 1
    assert_eq!(quack.serialize(), vec![0, 0, 1, 2, 0, 1, 4, 4, 0, 1]);
}

#[test]
fn serialize_of_no_power_sums_is_the_count() {
    let mut quack = PowerSumQuack::new(0);
    assert_eq!(quack.serialize(), vec![0, 0]);
    quack.insert(7);
    assert_eq!(quack.serialize(), vec![0, 1]);
}

#[test]
fn serialize_has_four_bytes_for_each_sum_and_two_more() {
    for size in [0usize, 1, 3, 10, 20] {
        assert_eq!(PowerSumQuack::new(size).serialize().len(), 4 * size + 2);
    }
}

#[test]
fn serialize_then_deserialize_keeps_sums_and_count() {
    let mut quack = PowerSumQuack::new(5);
    for x in [1143971604u32, 734067013, 130412990, 2072080394, 748120679] {
        quack.insert(x);
    }
    let again = PowerSumQuack::deserialize(&quack.serialize()).unwrap();
    assert_eq!(again.count(), 5);
    assert_eq!(again.threshold(), 5);
    assert_eq!(
        sums(&again),
        vec![533685389, 1847039354, 2727275532, 1272499396, 2347942976]
    );
    assert_eq!(again.serialize(), quack.serialize());
}

#[test]
fn deserialized_sketch_decodes() {
    let log = vec![1, 2, 3, 4, 5, 6];
    let mut q1 = PowerSumQuack::new(3);
    for x in &log {
        q1.insert(*x);
    }
    let mut q2 = PowerSumQuack::new(3);
    q2.insert(1);
    q2.insert(3);
    q2.insert(4);
    let q2 = PowerSumQuack::deserialize(&q2.serialize()).unwrap();
    let quack = q1 - q2;
    assert_eq!(quack.decode_with_log(&log), vec![2, 5, 6]);
}

#[test]
fn deserialize_reads_the_count() {
    let quack = PowerSumQuack::deserialize(&[0, 0, 0, 9, 0x12, 0x34]).unwrap();
    assert_eq!(quack.threshold(), 1);
    assert_eq!(sums(&quack), vec![9]);
    assert_eq!(quack.count(), 0x1234);
}

#[test]
fn deserialize_rejects_other_lengths() {
    assert!(PowerSumQuack::deserialize(&[]).is_none());
    assert!(PowerSumQuack::deserialize(&[0]).is_none());
    assert!(PowerSumQuack::deserialize(&[0, 0, 0]).is_none());
    assert!(PowerSumQuack::deserialize(&[0, 0, 0, 0]).is_none());
    assert!(PowerSumQuack::deserialize(&[0, 0, 0, 0, 0]).is_none());
    assert!(PowerSumQuack::deserialize(&[0; 7]).is_none());
    assert!(PowerSumQuack::deserialize(&[0, 0]).is_some());
    assert!(PowerSumQuack::deserialize(&[0; 6]).is_some());
}

#[test]
fn deserialize_reduces_a_sum_that_is_not_below_the_modulus() {
    let quack = PowerSumQuack::deserialize(&[0xff, 0xff, 0xff, 0xff, 0, 1]).unwrap();
    assert_eq!(sums(&quack), vec![4]);
    let quack = PowerSumQuack::deserialize(&[0xff, 0xff, 0xff, 0xfb, 0, 1]).unwrap();
    assert_eq!(sums(&quack), vec![0]);
}
