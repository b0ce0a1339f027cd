use freezable::{Freezable, FreezableComplex, FreezableError, FreezableState};

#[test]
fn freezable_complex_cancel_test() {
    let mut complex_5 = FreezableComplex::start(5);
    assert_eq!(complex_5.unfreeze(), Ok(FreezableState::Frozen(None)));
    assert_eq!(complex_5.unfreeze(), Ok(FreezableState::Frozen(None)));
    assert!(!complex_5.is_cancelled());
    complex_5.cancel();
    assert!(complex_5.is_cancelled());
}

#[test]
fn is_finished_test() {
    let mut complex_5 = FreezableComplex::start(5);
    assert_eq!(complex_5.unfreeze(), Ok(FreezableState::Frozen(None)));
    assert_eq!(complex_5.unfreeze(), Ok(FreezableState::Frozen(None)));
    assert_eq!(complex_5.unfreeze(), Ok(FreezableState::Frozen(None)));
    assert_eq!(
        complex_5.unfreeze(),
        Ok(FreezableState::Finished("24 a rando".to_string()))
    );
    assert!(complex_5.is_finished());
}

#[test]
fn freezable_complex_unfreeze_test() {
    let mut complex_5 = FreezableComplex::start(5);
    assert_eq!(complex_5.unfreeze(), Ok(FreezableState::Frozen(None)));
    assert_eq!(complex_5.unfreeze(), Ok(FreezableState::Frozen(None)));
    assert_eq!(complex_5.unfreeze(), Ok(FreezableState::Frozen(None)));
    assert_eq!(
        complex_5.unfreeze(),
        Ok(FreezableState::Finished("24 a rando".to_string()))
    );
    assert_eq!(complex_5.unfreeze(), Err(FreezableError::AlreadyFinished));
}

#[test]
fn freezable_complex_unfreeze_after_cancel_test() {
    let mut complex_5 = FreezableComplex::start(5);
    assert_eq!(complex_5.unfreeze(), Ok(FreezableState::Frozen(None)));
    assert_eq!(complex_5.unfreeze(), Ok(FreezableState::Frozen(None)));
    complex_5.cancel();
    assert_eq!(complex_5.unfreeze(), Err(FreezableError::Cancelled));
    assert_eq!(complex_5.unfreeze(), Err(FreezableError::Cancelled));
}
