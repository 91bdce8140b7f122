use robust_rust::email_client::{classify_status, DeliveryError, ScriptedSender};
use robust_rust::store::{backoff_ms, retry_time, IssueContent, SendAttempt, Store};

fn recipients(sender: &ScriptedSender) -> Vec<String> {
    sender.emails().iter().map(|e| e.recipient.clone()).collect()
}

fn delivered(attempts: &[SendAttempt]) -> Vec<String> {
    attempts
        .iter()
        .filter(|a| a.result.is_ok())
        .map(|a| a.task.subscriber_email.clone())
        .collect()
}

fn content() -> IssueContent {
    IssueContent {
        title: "Issue".to_string(),
        text_body: "text".to_string(),
        html_body: "<p>html</p>".to_string(),
    }
}

fn two_subscriber_store() -> Store {
    let mut store = Store::new();
    assert!(store.add_confirmed_subscriber(1, "a@example.com".to_string()));
    assert!(store.add_confirmed_subscriber(2, "b@example.com".to_string()));
    store.publish(1, &"k".to_string(), &content(), 1_000).unwrap();
    store
}

#[test]
fn a_transient_failure_is_retried_without_duplicates() {
    let mut store = two_subscriber_store();
    // a@example.com is tried first and fails once; everything else goes out.
    let mut sender = ScriptedSender::new(vec![Err(DeliveryError::Transient)]);
    let first = store.drain_now(&mut sender, 1_000);
    assert_eq!(delivered(&first), vec!["b@example.com".to_string()]);
    assert_eq!(store.queue_len(), 1);
    assert_eq!(store.task_retries(0, 1), Some(1));
    // Not eligible again before the backoff has passed.
    assert!(store.drain_now(&mut sender, 1_999).is_empty());
    assert_eq!(sender.emails().len(), 2);
    let second = store.drain_now(&mut sender, 2_000);
    assert_eq!(delivered(&second), vec!["a@example.com".to_string()]);
    assert_eq!(store.queue_len(), 0);
    // Nothing is left: a further drain sends nothing.
    assert!(store.drain_now(&mut sender, 1_000_000).is_empty());
    assert_eq!(
        recipients(&sender),
        vec!["a@example.com".to_string(), "b@example.com".to_string(), "a@example.com".to_string()]
    );
}

#[test]
fn a_permanent_failure_abandons_the_task() {
    let mut store = two_subscriber_store();
    let mut sender = ScriptedSender::new(vec![Err(DeliveryError::Permanent)]);
    let attempts = store.drain_now(&mut sender, 1_000);
    assert_eq!(delivered(&attempts), vec!["b@example.com".to_string()]);
    assert_eq!(store.queue_len(), 0);
    assert_eq!(store.abandoned_count(), 1);
}

#[test]
fn a_task_is_abandoned_once_its_retries_are_spent() {
    let mut store = two_subscriber_store();
    let t = Err(DeliveryError::Transient);
    // a@example.com fails every time; b@example.com goes out on the first drain.
    let mut sender = ScriptedSender::new(vec![t, Ok(()), t, t, t, t, t]);
    let mut now: u64 = 1_000;
    for _ in 0..6 {
        store.drain_now(&mut sender, now);
        now += 100_000;
    }
    // One first attempt and five retries.
    assert_eq!(sender.emails().len(), 1 + 6);
    assert_eq!(store.queue_len(), 0);
    assert_eq!(store.abandoned_count(), 1);
}

#[test]
fn a_released_task_can_be_claimed_again() {
    let mut store = two_subscriber_store();
    let held = store.claim_next_task(1_000).unwrap();
    assert_eq!((held.issue_id, held.subscriber_id), (0, 1));
    assert!(store.release_task(&held));
    assert!(!store.release_task(&held));
    let again = store.claim_next_task(1_000).unwrap();
    assert_eq!((again.issue_id, again.subscriber_id, again.n_retries), (0, 1, 0));
}

#[test]
fn a_held_task_is_not_claimed_twice() {
    let mut store = two_subscriber_store();
    let first = store.claim_next_task(1_000).unwrap();
    let second = store.claim_next_task(1_000).unwrap();
    assert_eq!((first.issue_id, first.subscriber_id), (0, 1));
    assert_eq!((second.issue_id, second.subscriber_id), (0, 2));
    assert_eq!(first.subscriber_email, "a@example.com");
    assert_eq!(first.title, "Issue");
    assert_eq!(first.html_body, "<p>html</p>");
    assert_eq!(first.text_body, "text");
    assert!(store.claim_next_task(1_000).is_none());
    assert!(store.succeed(&first));
    assert!(!store.succeed(&first));
    assert!(!store.fail(&first, true, "late".to_string(), 1_000));
    assert!(store.fail(&second, true, "timeout".to_string(), 1_000));
    // The delivered task never comes back; the failed one does after its wait.
    assert!(store.claim_next_task(1_500).is_none());
    let again = store.claim_next_task(2_000).unwrap();
    assert_eq!((again.issue_id, again.subscriber_id, again.n_retries), (0, 2, 1));
}

#[test]
fn backoff_doubles_from_one_second() {
    assert_eq!(backoff_ms(0), 1_000);
    assert_eq!(backoff_ms(1), 2_000);
    assert_eq!(backoff_ms(2), 4_000);
    assert_eq!(backoff_ms(4), 16_000);
}

#[test]
fn retry_time_saturates_at_the_latest_time() {
    assert_eq!(retry_time(5, 2), 4_005);
    assert_eq!(retry_time(u64::MAX - 10, 0), u64::MAX);
    assert_eq!(retry_time(0, 200), u64::MAX);
}

#[test]
fn backoff_saturates_at_the_largest_wait() {
    assert_eq!(backoff_ms(10), 1_024_000);
    assert_eq!(backoff_ms(54), 1_000 * (1u64 << 54));
    assert_eq!(backoff_ms(55), u64::MAX);
    assert_eq!(backoff_ms(64), u64::MAX);
}

#[test]
fn failures_are_classed_by_status() {
    assert_eq!(classify_status(400), DeliveryError::Permanent);
    assert_eq!(classify_status(404), DeliveryError::Permanent);
    assert_eq!(classify_status(408), DeliveryError::Transient);
    assert_eq!(classify_status(429), DeliveryError::Transient);
    assert_eq!(classify_status(500), DeliveryError::Transient);
    assert_eq!(classify_status(503), DeliveryError::Transient);
}
