use object_tree::execution::{finish_outcome, timestamp_from};

#[test]
fn finish_succeeds_when_every_step_does() {
    assert_eq!(finish_outcome::<&str>(Ok(()), Ok(()), Ok(())), Ok(()));
}

#[test]
fn finish_returns_the_error_of_the_one_step_that_failed() {
    assert_eq!(finish_outcome(Err("finish"), Ok(()), Ok(())), Err("finish"));
    assert_eq!(finish_outcome(Ok(()), Err("close"), Ok(())), Err("close"));
    assert_eq!(finish_outcome(Ok(()), Ok(()), Err("shutdown")), Err("shutdown"));
}

#[test]
fn finish_returns_the_error_of_the_first_step_that_failed() {
    assert_eq!(finish_outcome(Ok(()), Err("close"), Err("shutdown")), Err("close"));
    assert_eq!(finish_outcome(Err("finish"), Ok(()), Err("shutdown")), Err("finish"));
    assert_eq!(finish_outcome(Err("finish"), Err("close"), Ok(())), Err("finish"));
    assert_eq!(finish_outcome(Err("finish"), Err("close"), Err("shutdown")), Err("finish"));
}

#[test]
fn timestamp_is_not_negative() {
    assert_eq!(timestamp_from(1_700_000_000), 1_700_000_000);
    assert_eq!(timestamp_from(0), 0);
    assert_eq!(timestamp_from(-1), 0);
    assert_eq!(timestamp_from(i64::MIN), 0);
    assert_eq!(timestamp_from(i64::MAX), 9_223_372_036_854_775_807);
}
