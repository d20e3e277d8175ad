use quack::{DecodedQuack, PowerSumQuack};

#[test]
fn test_quack_decode() {
    let log = vec![1, 2, 3, 4, 5, 6];
    let mut q1 = PowerSumQuack::new(3);
    for x in &log {
        q1.insert(*x);
    }
    let mut q2 = PowerSumQuack::new(3);
    q2.insert(1);
    q2.insert(3);
    q2.insert(4);

    // Check the result
    let quack = q1 - q2;
    let result = DecodedQuack::decode(&quack, &log);
    assert_eq!(result.num_suffix(), 2);
    assert_eq!(result.num_missing(), 1);
    assert_eq!(result.total_num_missing(), 3);
    assert_eq!(result.missing(), &vec![1]);
}
