use hddwiper::cancellation_token::CancellationToken;

#[test]
fn new_token_is_not_cancelled() {
    let token = CancellationToken::new();
    assert!(!token.cancelled());
}

#[test]
fn cancelled_after_cancel() {
    let mut token = CancellationToken::new();
    token.cancel();
    assert!(token.cancelled());
}

#[test]
fn clones_share_cancellation_state() {
    let mut token1 = CancellationToken::new();
    let token2 = token1.clone();

    assert!(!token1.cancelled());
    assert!(!token2.cancelled());

    token1.cancel();

    assert!(token1.cancelled());
    assert!(token2.cancelled());
}

#[test]
fn multiple_cancel_calls_are_idempotent() {
    let mut token = CancellationToken::new();
    token.cancel();
    token.cancel();
    token.cancel();
    assert!(token.cancelled());
}
