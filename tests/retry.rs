use hibp_ranges::service::{Attempts, DEFAULT_ATTEMPT_BUDGET};

/// Runs one request against a fetcher whose attempts succeed from attempt
/// `first_success` on; gives whether it succeeded and the attempts made.
fn run(first_success: Option<usize>) -> (bool, usize) {
    let mut policy = Attempts::with_budget(DEFAULT_ATTEMPT_BUDGET);
    let mut attempts = 0;
    loop {
        let ok = first_success.map_or(false, |k| attempts >= k);
        attempts += 1;
        match policy.retry(ok) {
            Some(next) => policy = next,
            None => return (ok, attempts),
        }
    }
}

#[test]
fn retry_succeeds_after_k_failures() {
    for k in 0..10 {
        assert_eq!(run(Some(k)), (true, k + 1));
    }
}

#[test]
fn retry_gives_up_after_ten_attempts() {
    assert_eq!(run(None), (false, 10));
    assert_eq!(run(Some(10)), (false, 10));
}

#[test]
fn retry_accepts_success_and_counts_down() {
    assert_eq!(Attempts(3).retry(true), None);
    assert_eq!(Attempts(3).retry(false), Some(Attempts(2)));
    assert_eq!(Attempts(0).retry(false), None);
    assert_eq!(Attempts(0).clone_request(b"ABCDE"), Some(*b"ABCDE"));
}
