use simple_file_compressor::bignum::{BigNum, DecimalNum};

fn num(bits: Vec<u8>) -> BigNum {
    BigNum::from_bits(&bits)
}

#[test]
fn bignum_addition() {
    let mut num_a = num(vec![0]);
    let num_b = num(vec![0]);
    num_a.add(&num_b);
    assert_eq!(vec![0], num_a.to_bits());

    let mut num_a = num(vec![0]);
    let num_b = num(vec![1]);
    num_a.add(&num_b);
    assert_eq!(vec![1], num_a.to_bits());

    let mut num_a = num(vec![1]);
    let num_b = num(vec![1]);
    num_a.add(&num_b);
    assert_eq!(vec![1, 0], num_a.to_bits());

    let mut num_a = num(vec![1, 0]);
    let num_b = num(vec![1]);
    num_a.add(&num_b);
    assert_eq!(vec![1, 1], num_a.to_bits());

    let mut num_a = num(vec![1]);
    let num_b = num(vec![1, 0]);
    num_a.add(&num_b);
    assert_eq!(vec![1, 1], num_a.to_bits());

    let mut num_a = num(vec![1, 0, 1, 0, 1]);
    let num_b = num(vec![1, 0, 1, 0, 1]);
    num_a.add(&num_b);
    assert_eq!(vec![1, 0, 1, 0, 1, 0], num_a.to_bits());
}

#[test]
fn bignum_multiply() {
    let mut num_a = num(vec![0]);
    let num_b = num(vec![0]);
    num_a.multiply(&num_b);
    assert_eq!(vec![0], num_a.to_bits());

    let mut num_a = num(vec![0]);
    let num_b = num(vec![1]);
    num_a.multiply(&num_b);
    assert_eq!(vec![0], num_a.to_bits());

    let mut num_a = num(vec![1]);
    let num_b = num(vec![0]);
    num_a.multiply(&num_b);
    assert_eq!(vec![0], num_a.to_bits());

    let mut num_a = num(vec![1]);
    let num_b = num(vec![1]);
    num_a.multiply(&num_b);
    assert_eq!(vec![1], num_a.to_bits());

    let mut num_a = num(vec![1, 0]);
    let num_b = num(vec![1, 0]);
    num_a.multiply(&num_b);
    assert_eq!(vec![1, 0, 0], num_a.to_bits());

    let mut num_a = num(vec![1]);
    let num_b = num(vec![1, 0]);
    num_a.multiply(&num_b);
    assert_eq!(vec![1, 0], num_a.to_bits());

    let mut num_a = num(vec![1, 0, 0, 0, 1]);
    let num_b = num(vec![1, 0, 1, 0]);
    num_a.multiply(&num_b);
    assert_eq!(vec![1, 0, 1, 0, 1, 0, 1, 0], num_a.to_bits());
}

#[test]
fn bignum_subtract_divide_and_bits() {
    let mut a = BigNum::from_usize(1000);
    a.substract(&BigNum::from_usize(1));
    assert_eq!(Some(999), a.to_usize());
    a.divide(&BigNum::from_usize(10));
    assert_eq!(Some(99), a.to_usize());
    a.push_bit(1);
    assert_eq!(Some(199), a.to_usize());
    assert!(a.lt(&BigNum::from_usize(200)));
    assert!(!a.lt(&BigNum::from_usize(199)));
    let big = BigNum::pow2(80);
    assert_eq!(None, big.to_usize());
    assert_eq!(81, big.to_bits().len());
}

#[test]
fn test_bits_to_decimal() {

    let num: Vec<u8> = vec![0];
    let dec_num = DecimalNum::from_bits(&num);
    assert_eq!(vec![0], dec_num.digits);

    let num: Vec<u8> = vec![1];
    let dec_num = DecimalNum::from_bits(&num);
    assert_eq!(vec![1], dec_num.digits);

    let num: Vec<u8> = vec![1, 0, 1, 0, 1];
    let dec_num = DecimalNum::from_bits(&num);
    assert_eq!(vec![2, 1], dec_num.digits);

    // MAX
    let num: Vec<u8> = vec![1; 128];
    let dec_num = DecimalNum::from_bits(&num);
    assert_eq!(
        vec![
            3, 4, 0, 2, 8, 2, 3, 6, 6, 9, 2, 0, 9, 3, 8, 4, 6, 3, 4, 6, 3, 3, 7, 4, 6, 0, 7, 4, 3, 1,
            7, 6, 8, 2, 1, 1, 4, 5, 5
        ],
        dec_num.digits
    );

    // BEYOND MAX
    let mut num: Vec<u8> = vec![0; 129];
    num[0] = 1;
    let dec_num = DecimalNum::from_bits(&num);
    assert_eq!(
        vec![
            3, 4, 0, 2, 8, 2, 3, 6, 6, 9, 2, 0, 9, 3, 8, 4, 6, 3, 4, 6, 3, 3, 7, 4, 6, 0, 7, 4, 3, 1,
            7, 6, 8, 2, 1, 1, 4, 5, 6
        ],
        dec_num.digits
    );
}

#[test]
fn decimal_agrees_with_binary_digits() {

    let n = BigNum::from_usize(1_000_000_007);
    let dec = DecimalNum::from_bits(&n.to_bits());
    assert_eq!(vec![1, 0, 0, 0, 0, 0, 0, 0, 0, 7], dec.digits);
    assert!(DecimalNum::new().digits.is_empty());
    assert!(DecimalNum::with_capacity(4).digits.is_empty());
}
