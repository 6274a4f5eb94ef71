use aliquot::{AliquotError, Generator};

#[test]
fn aliquot_sum_of_zero_and_one_is_zero() {
    assert_eq!(Generator::aliquot_sum(0), Ok(0));
    assert_eq!(Generator::aliquot_sum(1), Ok(0));
}

#[test]
fn aliquot_sum_of_primes_is_one() {
    for p in [2u64, 3, 5, 7, 11, 13, 31, 97, 101, 65537] {
        assert_eq!(Generator::aliquot_sum(p), Ok(1));
    }
}

#[test]
fn aliquot_sum_of_perfect_numbers() {
    for p in [6u64, 28, 496, 8128] {
        assert_eq!(Generator::aliquot_sum(p), Ok(p));
    }
}

#[test]
fn aliquot_sum_exact_values() {
    assert_eq!(Generator::aliquot_sum(12), Ok(16));
    assert_eq!(Generator::aliquot_sum(16), Ok(15));
    assert_eq!(Generator::aliquot_sum(9), Ok(4));
    assert_eq!(Generator::aliquot_sum(220), Ok(284));
    assert_eq!(Generator::aliquot_sum(284), Ok(220));
    assert_eq!(Generator::aliquot_sum(95), Ok(25));
    assert_eq!(Generator::aliquot_sum(96), Ok(156));
    assert_eq!(Generator::aliquot_sum(562), Ok(284));
    assert_eq!(Generator::aliquot_sum(1064), Ok(1336));
}

#[test]
fn aliquot_sum_overflow_is_reported() {
    // 2^57 * 105: highly divisible and close to the domain maximum, so the
    // sum of its proper divisors exceeds the domain
    let n: u64 = 105 << 57;
    let r = Generator::aliquot_sum(n);
    match r {
        Err(AliquotError::OverflowError(msg)) => {
            assert_eq!(
                msg,
                "16393102643628605450 plus 3026418949592973317 exceeds maximum 18446744073709551615"
            );
        }
        other => panic!("expected an overflow error, got {:?}", other),
    }
}

#[test]
fn error_message_accessor() {
    let e = AliquotError::InvalidRange(String::from("7 - 3"));
    assert_eq!(e.message().as_str(), "7 - 3");
}
