//! The cancellation token.
use modelsteward::cancel::{check_of, CancelToken, CANCELLED};

#[test]
fn token_flips_once_and_shares() {
    let t = CancelToken::default();
    let t2 = t.clone();
    assert!(t.check().is_ok());
    t2.cancel();
    assert!(t.is_cancelled());
    assert!(t.check().unwrap_err().to_string().contains("cancelled by user"));
}

#[test]
fn a_check_says_what_the_flag_says() {
    assert_eq!(check_of(false), Ok(()));
    assert_eq!(check_of(true), Err(CANCELLED.to_string()));
}
