use llhd::konst::{ConstTime, Ratio};

fn make(num: u64, denom: u64, delta: usize, epsilon: usize) -> String {
    ConstTime::new(Ratio::new(num, denom), delta, epsilon).to_string()
}

#[test]
fn time_formatting() {
    assert_eq!(make(0, 1, 0, 0), "0s");
    assert_eq!(make(0, 1, 0, 1), "0s 1e");
    assert_eq!(make(0, 1, 1, 0), "0s 1d");
    assert_eq!(make(0, 1, 1, 1), "0s 1d 1e");

    assert_eq!(make(1, 1, 0, 0), "1s");
    assert_eq!(make(1, 1, 0, 1), "1s 1e");
    assert_eq!(make(1, 1, 1, 0), "1s 1d");
    assert_eq!(make(1, 1, 1, 1), "1s 1d 1e");

    assert_eq!(make(1, 10, 0, 0), "100ms");
    assert_eq!(make(1, 100, 0, 0), "10ms");
    assert_eq!(make(1, 1000, 0, 0), "1ms");
    assert_eq!(make(1, 10000, 0, 0), "100us");
    assert_eq!(make(1, 100000, 0, 0), "10us");
    assert_eq!(make(1, 1000000, 0, 0), "1us");
    assert_eq!(make(1, 10000000, 0, 0), "100ns");
    assert_eq!(make(1, 100000000, 0, 0), "10ns");
    assert_eq!(make(1, 1000000000, 0, 0), "1ns");
    assert_eq!(make(1, 10000000000, 0, 0), "100ps");
    assert_eq!(make(1, 100000000000, 0, 0), "10ps");
    assert_eq!(make(1, 1000000000000, 0, 0), "1ps");
    assert_eq!(make(1, 10000000000000, 0, 0), "100fs");
    assert_eq!(make(1, 100000000000000, 0, 0), "10fs");
    assert_eq!(make(1, 1000000000000000, 0, 0), "1fs");
    assert_eq!(make(1, 10000000000000000, 0, 0), "100as");
    assert_eq!(make(1, 100000000000000000, 0, 0), "10as");
    assert_eq!(make(1, 1000000000000000000, 0, 0), "1as");

    assert_eq!(make(500, 1, 0, 0), "500s");
    assert_eq!(make(50, 1, 0, 0), "50s");
    assert_eq!(make(5, 1, 0, 0), "5s");
    assert_eq!(make(5, 10, 0, 0), "500ms");
    assert_eq!(make(5, 100, 0, 0), "50ms");
    assert_eq!(make(5, 1000, 0, 0), "5ms");

    assert_eq!(make(1, 3, 0, 0), "333.333333333ms");
}

#[test]
fn const_int_text() {
    assert_eq!(llhd::konst::ConstInt::zero(8).text(), "0");
    assert_eq!(llhd::konst::ConstInt::new(16, num::BigInt::from(-42)).text(), "-42");
    let c = llhd::konst::ConstInt::new(16, num::BigInt::from(1234));
    assert_eq!(c.duplicate().text(), "1234");
}
