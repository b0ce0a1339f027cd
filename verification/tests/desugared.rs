use freezable::desugared::{DesugaredFreezable, FreezableComplex, FreezableGenerator4};
use freezable::{FreezableError, FreezableState};

#[test]
fn cancel_test() {
    let mut complex_5 = FreezableComplex::start(5);
    assert_eq!(complex_5.unfreeze(), Ok(FreezableState::Frozen(None)));
    assert_eq!(complex_5.unfreeze(), Ok(FreezableState::Frozen(None)));
    assert_eq!(complex_5.is_cancelled(), false);
    complex_5.cancel();
    assert_eq!(complex_5.is_cancelled(), true);
}

#[test]
fn unfreeze_test() {
    let mut complex_5 = FreezableComplex::start(5);
    assert_eq!(complex_5.unfreeze(), Ok(FreezableState::Frozen(None)));
    assert_eq!(complex_5.unfreeze(), Ok(FreezableState::Frozen(None)));
    assert_eq!(complex_5.unfreeze(), Ok(FreezableState::Frozen(None)));
    assert_eq!(
        complex_5.unfreeze(),
        Ok(FreezableState::Finished("24 a rando".to_string()))
    );
    assert_eq!(complex_5.unfreeze(), Err(FreezableError::AlreadyFinished));
}

#[test]
fn unfreeze_after_cancel_test() {
    let mut complex_5 = FreezableComplex::start(5);
    assert_eq!(complex_5.unfreeze(), Ok(FreezableState::Frozen(None)));
    assert_eq!(complex_5.unfreeze(), Ok(FreezableState::Frozen(None)));
    complex_5.cancel();
    assert_eq!(complex_5.unfreeze(), Err(FreezableError::Cancelled));
    assert_eq!(complex_5.unfreeze(), Err(FreezableError::Cancelled));
}

#[test]
fn desugared_complex_keeps_its_states() {
    let mut complex_5 = FreezableComplex::start(5);
    assert_eq!(complex_5, FreezableComplex::Chunk0(5));
    let _ = complex_5.unfreeze();
    assert_eq!(complex_5, FreezableComplex::Chunk1(5));
    let _ = complex_5.unfreeze();
    assert_eq!(complex_5, FreezableComplex::Chunk2(6, 4));
    let _ = complex_5.unfreeze();
    assert_eq!(complex_5, FreezableComplex::Chunk3("24".to_string()));
    let _ = complex_5.unfreeze();
    assert_eq!(complex_5, FreezableComplex::Finished);
}

#[test]
fn desugared_generator_cancel_test() {
    let mut generator_5 = FreezableGenerator4::start(5);
    assert_eq!(generator_5.unfreeze(), Ok(FreezableState::Frozen(Some(5))));
    assert_eq!(generator_5.unfreeze(), Ok(FreezableState::Frozen(Some(6))));
    assert!(!generator_5.is_cancelled());
    generator_5.cancel();
    assert!(generator_5.is_cancelled());
}

#[test]
fn desugared_generator_unfreeze_test() {
    let mut generator_5 = FreezableGenerator4::start(5);
    assert_eq!(generator_5.unfreeze(), Ok(FreezableState::Frozen(Some(5))));
    assert_eq!(generator_5.unfreeze(), Ok(FreezableState::Frozen(Some(6))));
    assert_eq!(generator_5.unfreeze(), Ok(FreezableState::Frozen(Some(7))));
    assert_eq!(generator_5.unfreeze(), Ok(FreezableState::Finished(8)));
    assert_eq!(generator_5.unfreeze(), Err(FreezableError::AlreadyFinished));
}

#[test]
fn desugared_generator_unfreeze_after_cancel_test() {
    let mut generator_5 = FreezableGenerator4::start(5);
    assert_eq!(generator_5.unfreeze(), Ok(FreezableState::Frozen(Some(5))));
    assert_eq!(generator_5.unfreeze(), Ok(FreezableState::Frozen(Some(6))));
    generator_5.cancel();
    assert_eq!(generator_5.unfreeze(), Err(FreezableError::Cancelled));
    assert_eq!(generator_5.unfreeze(), Err(FreezableError::Cancelled));
}

#[test]
fn both_styles_of_the_generator_agree() {
    for begin in 0..=252u8 {
        let mut plain = FreezableGenerator4::start(begin);
        let mut other = freezable::FreezableGenerator4::start(begin);
        for _ in 0..6 {
            assert_eq!(plain.unfreeze(), freezable::Freezable::unfreeze(&mut other));
        }
    }
}

#[test]
fn both_styles_of_the_complex_task_agree() {
    for begin in 1..=16u8 {
        let mut plain = FreezableComplex::start(begin);
        let mut other = freezable::FreezableComplex::start(begin);
        for _ in 0..6 {
            assert_eq!(plain.unfreeze(), freezable::Freezable::unfreeze(&mut other));
        }
    }
}
