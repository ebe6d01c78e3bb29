use jpeg_secret::fns::FNS;
use jpeg_secret::ns0::NS0;
use num_bigint::BigUint;

fn bytes(v: u32) -> Vec<u8> {
    BigUint::from(v).to_bytes_be()
}

fn fns(v: u32) -> FNS {
    FNS::from_bytes(bytes(v))
}

fn value(b: Vec<u8>) -> u32 {
    u32::try_from(BigUint::from_bytes_be(&b)).unwrap()
}

fn n(v: u32, input: usize) -> Option<NS0> {
    NS0::try_from_input(&bytes(v), input)
}

fn digits(v: u32, input: usize) -> Option<Vec<usize>> {
    n(v, input).map(|ns| ns.digits)
}

fn to_perm(v: u32, input: usize) -> Option<Vec<usize>> {
    n(v, input).map(|ns| ns.to_permutation())
}

fn big(ns: NS0) -> u32 {
    value(ns.to_value())
}

fn from_perm(permutation: Vec<usize>) -> u32 {
    big(NS0::from_permutation(permutation))
}

#[test]
fn test_biguint_to_fns() {
    assert_eq!(fns(0).digits, vec![0]);
    assert_eq!(fns(1).digits, vec![1]);
    assert_eq!(fns(2).digits, vec![1, 0]);
    assert_eq!(fns(6).digits, vec![1, 0, 0]);
    assert_eq!(fns(24).digits, vec![1, 0, 0, 0]);

    assert_eq!(fns(5).digits, vec![2, 1]);
    assert_eq!(fns(10).digits, vec![1, 2, 0]);
    assert_eq!(fns(15).digits, vec![2, 1, 1]);
    assert_eq!(fns(20).digits, vec![3, 1, 0]);
}

#[test]
fn factorial_number_system_test_to_permutation() {
    assert_eq!(fns(0).to_permutation(3), vec![0, 1, 2]);
    assert_eq!(fns(1).to_permutation(3), vec![0, 2, 1]);
    assert_eq!(fns(2).to_permutation(3), vec![1, 0, 2]);
    assert_eq!(fns(3).to_permutation(3), vec![1, 2, 0]);
    assert_eq!(fns(4).to_permutation(3), vec![2, 0, 1]);
    assert_eq!(fns(5).to_permutation(3), vec![2, 1, 0]);
}

#[test]
fn factorial_number_system_test_from_permutation() {
    for v in 0u32..120 {
        let f = fns(v);
        let perm = f.to_permutation(5);
        let fns_new = FNS::from_permutation(perm.clone());
        assert_eq!(f.digits, fns_new.digits);
    }
}

#[test]
fn test_to_bytes() {
    for v in 1u16..1000 {
        let mut b = v.to_be_bytes().to_vec();
        while b.len() > 1 && b[0] == 0 {
            b.remove(0);
        }
        let f = FNS::from_bytes(b.clone());
        let out_bytes = f.to_bytes();
        assert_eq!(b, out_bytes);
    }
}

#[test]
fn fns_permute_and_read_values() {
    let f = fns(3);
    let mut buf = vec![3, 5, 10];
    f.permute_values(&mut buf);
    assert_eq!(buf, vec![5, 10, 3]);
    assert_eq!(FNS::read_values(&buf).digits, f.digits);
    let mut longer = vec![30, 10, 20, 40];
    f.permute_values(&mut longer);
    assert_eq!(longer, vec![10, 30, 40, 20]);
}

#[test]
fn ns0_test_from_biguint() {
    assert_eq!(digits(1, 2), Some(vec![1]));
    assert_eq!(digits(2, 3), Some(vec![1, 0]));
    assert_eq!(digits(6, 4), Some(vec![1, 0, 0]));
    assert_eq!(digits(24, 5), Some(vec![1, 0, 0, 0]));

    assert_eq!(digits(5, 3), Some(vec![2, 1]));
    assert_eq!(digits(10, 4), Some(vec![1, 2, 0]));
    assert_eq!(digits(15, 4), Some(vec![2, 1, 1]));
    assert_eq!(digits(20, 4), Some(vec![3, 1, 0]));
}

#[test]
fn test_from_biguint_input_too_small() {
    assert_eq!(digits(1, 1), None);
    assert_eq!(digits(2, 2), None);
    assert_eq!(digits(6, 3), None);
    assert_eq!(digits(24, 4), None);

    assert_eq!(digits(5, 2), None);
    assert_eq!(digits(10, 3), None);
    assert_eq!(digits(15, 3), None);
    assert_eq!(digits(20, 3), None);
}

#[test]
fn ns0_test_to_from_biguint() {
    for i in 1..120u32 {
        let ns = n(i, 5).expect(&format!("Expected value for {i}"));
        assert_eq!(i, big(ns));
    }
}

#[test]
fn ns0_test_to_permutation() {
    assert_eq!(to_perm(0, 3), Some(vec![0, 1, 2]));
    assert_eq!(to_perm(1, 3), Some(vec![0, 2, 1]));
    assert_eq!(to_perm(2, 3), Some(vec![1, 0, 2]));
    assert_eq!(to_perm(3, 3), Some(vec![1, 2, 0]));
    assert_eq!(to_perm(4, 3), Some(vec![2, 0, 1]));
    assert_eq!(to_perm(5, 3), Some(vec![2, 1, 0]));
}

#[test]
fn ns0_test_from_permutation() {
    assert_eq!(from_perm(vec![0, 1, 2]), 0);
    assert_eq!(from_perm(vec![0, 2, 1]), 1);
    assert_eq!(from_perm(vec![1, 0, 2]), 2);
    assert_eq!(from_perm(vec![1, 2, 0]), 3);
    assert_eq!(from_perm(vec![2, 0, 1]), 4);
    assert_eq!(from_perm(vec![2, 1, 0]), 5);
}

#[test]
fn test_to_from_permutation() {
    for i in 0..120 {
        let p = to_perm(i, 5).expect(&format!("Expected value for {i}"));
        let n = from_perm(p);
        assert_eq!(i, n);
    }
}

#[test]
fn ns0_test_permute_values() {
    let ns = n(3, 3).unwrap();

    let mut buf = vec![3, 5, 10];
    ns.permute_values(&mut buf);
    assert_eq!(buf, vec![5, 10, 3]);
    ns.permute_values(&mut buf);
    assert_eq!(buf, vec![5, 10, 3]);
}

#[test]
fn ns0_test_read_values() {
    assert_eq!(big(NS0::read_values(&vec![3, 5, 10])), 0);
    assert_eq!(big(NS0::read_values(&vec![3, 10, 5])), 1);
    assert_eq!(big(NS0::read_values(&vec![5, 3, 10])), 2);
    assert_eq!(big(NS0::read_values(&vec![5, 10, 3])), 3);
    assert_eq!(big(NS0::read_values(&vec![10, 3, 5])), 4);
    assert_eq!(big(NS0::read_values(&vec![10, 5, 3])), 5);
}

#[test]
fn read_after_permute_gives_the_digits_back() {
    let values = vec![200, 7, 99, 31, 64, 150];
    for v in 0u32..720 {
        let ns = n(v, 6).unwrap();
        let mut buf = values.clone();
        ns.permute_values(&mut buf);
        assert_eq!(NS0::read_values(&buf).digits, ns.digits);
    }
}

#[test]
fn single_value_table_has_no_digits() {
    assert_eq!(digits(0, 1), Some(vec![]));
    assert_eq!(digits(0, 0), Some(vec![]));
    assert_eq!(to_perm(0, 1), Some(vec![0]));
}
