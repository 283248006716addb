use bubblepop::options::{effective_threads, DEFAULT_THREADS};
use bubblepop::text::{push_decimal, push_signed_decimal};
use bubblepop::{Backend, Phase};

#[test]
fn decimal_rendering() {
    let mut s = String::from("n=");
    push_decimal(&mut s, 0);
    assert_eq!(s, "n=0");
    let mut s = String::new();
    push_decimal(&mut s, 1234567890);
    assert_eq!(s, "1234567890");
    let mut s = String::new();
    push_decimal(&mut s, u64::MAX);
    assert_eq!(s, u64::MAX.to_string());
    let mut s = String::new();
    push_signed_decimal(&mut s, -42);
    assert_eq!(s, "-42");
    let mut s = String::new();
    push_signed_decimal(&mut s, i64::MIN);
    assert_eq!(s, i64::MIN.to_string());
}

#[test]
fn phases_in_reporting_order() {
    assert_eq!(
        Phase::in_order(),
        vec![
            Phase::ImagePreparation,
            Phase::Preprocessing,
            Phase::Inference,
            Phase::ComponentsScoring,
            Phase::ContoursSimplification,
            Phase::ResultPacking,
        ]
    );
}

#[test]
fn backend_and_threads() {
    assert_eq!(Backend::default(), Backend::Cpu);
    assert_eq!(effective_threads(0), 1);
    assert_eq!(effective_threads(8), 8);
    assert_eq!(DEFAULT_THREADS, 4);
}
