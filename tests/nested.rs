use jpeg_secret::ns1::NS1;
use jpeg_secret::ns2::{max_base_value, NS2};
use num_bigint::BigUint;

fn bytes(v: u32) -> Vec<u8> {
    BigUint::from(v).to_bytes_be()
}

fn value(b: Vec<u8>) -> u32 {
    u32::try_from(BigUint::from_bytes_be(&b)).unwrap()
}

fn n1(v: u32, input: &Vec<usize>) -> Option<NS1> {
    NS1::try_from_input(&bytes(v), input)
}

fn digits1(v: u32, input: &Vec<usize>) -> Option<Vec<Vec<usize>>> {
    n1(v, input).map(|ns| ns.digits.into_iter().map(|d| d.digits).collect())
}

fn big1(ns: NS1, input: &Vec<usize>) -> u32 {
    value(ns.to_value(input))
}

fn n2(v: u32, input: &Vec<Vec<usize>>) -> Option<NS2> {
    NS2::try_from_input(&bytes(v), input)
}

fn digits2(v: u32, input: &Vec<Vec<usize>>) -> Option<Vec<Vec<Vec<usize>>>> {
    n2(v, input).map(|ns| {
        ns.digits
            .into_iter()
            .map(|t| t.digits.into_iter().map(|d| d.digits).collect())
            .collect()
    })
}

fn big2(ns: NS2, input: &Vec<Vec<usize>>) -> u32 {
    value(ns.to_value(input))
}

#[test]
fn test_invalid_0() {
    assert_eq!(digits1(1, &vec![2, 0, 0, 2]), Some(vec![vec![0], vec![1]]));
    assert_eq!(digits1(2, &vec![2, 0, 0, 2]), Some(vec![vec![1], vec![0]]));
    assert_eq!(digits1(3, &vec![2, 0, 0, 2]), Some(vec![vec![1], vec![1]]));
    assert_eq!(digits1(4, &vec![2, 0, 0, 2]), None);
}

#[test]
fn test_invalid_1() {
    assert_eq!(digits1(1, &vec![2, 1, 1, 2]), Some(vec![vec![0], vec![1]]));
    assert_eq!(digits1(2, &vec![2, 1, 1, 2]), Some(vec![vec![1], vec![0]]));
    assert_eq!(digits1(3, &vec![2, 1, 1, 2]), Some(vec![vec![1], vec![1]]));
    assert_eq!(digits1(4, &vec![2, 1, 1, 2]), None);
}

#[test]
fn ns1_test_from_biguint() {
    assert_eq!(digits1(1, &vec![2, 2]), Some(vec![vec![0], vec![1]]));
    assert_eq!(digits1(2, &vec![2, 2]), Some(vec![vec![1], vec![0]]));
    assert_eq!(digits1(3, &vec![2, 2]), Some(vec![vec![1], vec![1]]));
    assert_eq!(digits1(4, &vec![2, 2]), None);

    assert_eq!(digits1(5, &vec![2, 3]), Some(vec![vec![0], vec![2, 1]]));
    assert_eq!(digits1(10, &vec![2, 3]), Some(vec![vec![1], vec![2, 0]]));
    assert_eq!(digits1(12, &vec![2, 3]), None);
    assert_eq!(digits1(15, &vec![3, 3]), Some(vec![vec![1, 0], vec![1, 1]]));
    assert_eq!(digits1(20, &vec![3, 3]), Some(vec![vec![1, 1], vec![1, 0]]));
}

#[test]
fn ns1_test_to_from_biguint() {
    let input = vec![3, 3, 4];
    for i in 1..864u32 {
        let ns = n1(i, &input).expect(&format!("Expected value for {i}"));
        assert_eq!(i, big1(ns, &input));
    }
}

#[test]
fn ns1_test_permute_values() {
    let input = vec![3, 3];
    let ns = n1(10, &input).unwrap();

    let mut buf = vec![3, 5, 10, 15, 20, 25];
    ns.permute_values(&input, &mut buf);
    assert_eq!(buf, vec![3, 10, 5, 25, 15, 20]);
    ns.permute_values(&input, &mut buf);
    assert_eq!(buf, vec![3, 10, 5, 25, 15, 20]);
}

#[test]
fn ns1_test_read_values() {
    let buf = vec![25, 15, 5, 0, 20, 10];
    let read = |input: Vec<usize>| big1(NS1::read_values(&input, &buf), &input);
    assert_eq!(read(vec![0, 6]), 679);
    assert_eq!(read(vec![1, 5]), 110);
    assert_eq!(read(vec![2, 4]), 31);
    assert_eq!(read(vec![3, 3]), 31);
    assert_eq!(read(vec![4, 2]), 47);
    assert_eq!(read(vec![5, 1]), 110);
    assert_eq!(read(vec![6, 0]), 679);
}

#[test]
fn nested_encode_of_ten_and_of_a_lone_six() {
    assert_eq!(digits1(10, &vec![2, 3]), Some(vec![vec![1], vec![2, 0]]));
    let six = digits1(679, &vec![0, 6]).unwrap();
    assert_eq!(six.len(), 1);
    assert_eq!(six[0].len(), 5);
    assert_eq!(big1(n1(679, &vec![0, 6]).unwrap(), &vec![0, 6]), 679);
}

#[test]
fn test_invalid() {
    assert_eq!(
        digits2(1, &vec![vec![1, 1], vec![2]]),
        Some(vec![vec![], vec![vec![1]]])
    );
    assert_eq!(
        digits2(1, &vec![vec![1], vec![2, 1, 1]]),
        Some(vec![vec![], vec![vec![1]]])
    );
}

#[test]
fn test_from_biguint_binary() {
    let input = vec![vec![2, 2], vec![2, 2]];
    let bin = |v: Vec<usize>| vec![vec![vec![v[0]], vec![v[1]]], vec![vec![v[2]], vec![v[3]]]];

    assert_eq!(digits2(0, &input), Some(bin(vec![0, 0, 0, 0])));
    assert_eq!(digits2(1, &input), Some(bin(vec![0, 0, 0, 1])));
    assert_eq!(digits2(2, &input), Some(bin(vec![0, 0, 1, 0])));
    assert_eq!(digits2(3, &input), Some(bin(vec![0, 0, 1, 1])));
    assert_eq!(digits2(4, &input), Some(bin(vec![0, 1, 0, 0])));
    assert_eq!(digits2(5, &input), Some(bin(vec![0, 1, 0, 1])));
    assert_eq!(digits2(6, &input), Some(bin(vec![0, 1, 1, 0])));
    assert_eq!(digits2(7, &input), Some(bin(vec![0, 1, 1, 1])));
    assert_eq!(digits2(15, &input), Some(bin(vec![1, 1, 1, 1])));
}

#[test]
fn ns2_test_from_biguint() {
    let input = vec![vec![3, 3], vec![3, 3], vec![3, 3]];

    assert_eq!(
        digits2(35, &input),
        Some(vec![
            vec![vec![0, 0], vec![0, 0]],
            vec![vec![0, 0], vec![0, 0]],
            vec![vec![2, 1], vec![2, 1]]
        ])
    );

    assert_eq!(
        digits2(36, &input),
        Some(vec![
            vec![vec![0, 0], vec![0, 0]],
            vec![vec![0, 0], vec![0, 1]],
            vec![vec![0, 0], vec![0, 0]]
        ])
    );

    assert_eq!(
        digits2(1295, &input),
        Some(vec![
            vec![vec![0, 0], vec![0, 0]],
            vec![vec![2, 1], vec![2, 1]],
            vec![vec![2, 1], vec![2, 1]]
        ])
    );

    assert_eq!(
        digits2(1296, &input),
        Some(vec![
            vec![vec![0, 0], vec![0, 1]],
            vec![vec![0, 0], vec![0, 0]],
            vec![vec![0, 0], vec![0, 0]]
        ])
    );

    assert_eq!(
        digits2(46655, &input),
        Some(vec![
            vec![vec![2, 1], vec![2, 1]],
            vec![vec![2, 1], vec![2, 1]],
            vec![vec![2, 1], vec![2, 1]]
        ])
    );

    assert_eq!(digits2(46656, &input), None);
}

#[test]
fn ns2_test_to_from_biguint() {
    let input = vec![vec![3, 3], vec![3, 3]];
    for i in 1..1296u32 {
        let ns = n2(i, &input).expect(&format!("Expected value for {i}"));
        assert_eq!(i, big2(ns, &input));
    }
}

#[test]
fn ns2_test_permute_values() {
    let mut buf = vec![vec![0, 5, 10, 15, 20, 25], vec![0, 2, 4, 6]];
    let input = vec![vec![3, 3], vec![2, 2]];
    let ns = n2(103, &input).unwrap();

    ns.permute_values(&input, &mut buf);
    assert_eq!(buf, vec![vec![10, 0, 5, 15, 25, 20], vec![2, 0, 6, 4]]);
    ns.permute_values(&input, &mut buf);
    assert_eq!(buf, vec![vec![10, 0, 5, 15, 25, 20], vec![2, 0, 6, 4]]);
}

#[test]
fn ns2_test_read_values() {
    let buf = vec![vec![10, 0, 5, 15, 25, 20], vec![2, 0, 6, 4]];
    let input = vec![vec![3, 3], vec![2, 2]];
    assert_eq!(big2(NS2::read_values(&input, &buf), &input), 103);
}

#[test]
fn capacity_is_the_product_of_the_factorials() {
    let input = vec![vec![3, 3], vec![2, 2], vec![1, 0]];
    assert_eq!(value(max_base_value(&input)), 36 * 4);
}

#[test]
fn nested_round_trip_through_permuted_tables() {
    let input = vec![vec![3, 4], vec![0, 5, 1]];
    let unchanged = vec![vec![1, 2, 3, 40, 50, 60, 70], vec![9, 8, 7, 6, 5, 4]];
    for v in [0u32, 1, 17, 5000, 10_000, 17_279] {
        let ns = n2(v, &input).unwrap();
        let mut buf = unchanged.clone();
        ns.permute_values(&input, &mut buf);
        assert_eq!(big2(NS2::read_values(&input, &buf), &input), v);
    }
    assert!(n2(17_280, &input).is_none());
}
