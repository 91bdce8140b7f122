use robust_rust::email_client::ScriptedSender;
use robust_rust::model::PublishError;
use robust_rust::outcome::HttpOutcome;
use robust_rust::store::{IssueContent, Store};

fn sent(sender: &ScriptedSender) -> Vec<(String, String, String, String)> {
    sender
        .emails()
        .iter()
        .map(|e| (e.recipient.clone(), e.subject.clone(), e.html_body.clone(), e.text_body.clone()))
        .collect()
}

fn outcome_parts(o: &HttpOutcome) -> (u16, Vec<(String, String)>, Vec<u8>) {
    (
        o.status_code,
        o.headers.iter().map(|h| (h.name.clone(), h.value.clone())).collect(),
        o.body.clone(),
    )
}

fn newsletter() -> IssueContent {
    IssueContent {
        title: "Newsletter title".to_string(),
        text_body: "Newsletter body as plain text".to_string(),
        html_body: "<p>Newsletter body as HTML</p>".to_string(),
    }
}

fn store_with_confirmed_subscriber() -> Store {
    let mut store = Store::new();
    assert!(store.add_confirmed_subscriber(7, "ursula_le_guin@gmail.com".to_string()));
    store
}

#[test]
fn newsletters_are_not_delivered_to_unconfirmed_subscribers() {
    let mut store = Store::new();
    let mut sender = ScriptedSender::new(Vec::new());
    let content = IssueContent {
        title: "Newsletter title".to_string(),
        text_body: "Newsletter content".to_string(),
        html_body: "<p>Newsletter content</p>".to_string(),
    };
    let outcome = store.publish(1, &"key-1".to_string(), &content, 100).unwrap();
    assert_eq!(outcome.status_code, 303);
    assert_eq!(store.issue_count(), 1);
    assert_eq!(store.queue_len(), 0);
    store.drain_now(&mut sender, 100);
    assert!(sent(&sender).is_empty());
}

#[test]
fn newsletters_are_delivered_to_confirmed_subscribers() {
    let mut store = store_with_confirmed_subscriber();
    let mut sender = ScriptedSender::new(Vec::new());
    let outcome = store.publish(1, &"key-1".to_string(), &newsletter(), 100).unwrap();
    assert_eq!(
        outcome_parts(&outcome),
        (303, vec![("location".to_string(), "/admin/newsletters".to_string())], vec![])
    );
    assert_eq!(store.queue_len(), 1);
    store.drain_now(&mut sender, 100);
    assert_eq!(
        sent(&sender),
        vec![(
            "ursula_le_guin@gmail.com".to_string(),
            "Newsletter title".to_string(),
            "<p>Newsletter body as HTML</p>".to_string(),
            "Newsletter body as plain text".to_string(),
        )]
    );
    assert_eq!(store.queue_len(), 0);
}

#[test]
fn newsletter_creation_is_idempotent() {
    let mut store = store_with_confirmed_subscriber();
    let mut sender = ScriptedSender::new(Vec::new());
    let key = "0b9a4a34-4d4e-4e1c-9a2f-3f4b7c1d2e5a".to_string();
    let first = store.publish(1, &key, &newsletter(), 100).unwrap();
    let second = store.publish(1, &key, &newsletter(), 200).unwrap();
    assert_eq!(outcome_parts(&first), outcome_parts(&second));
    assert_eq!(store.issue_count(), 1);
    assert_eq!(store.queue_len(), 1);
    store.drain_now(&mut sender, 200);
    assert_eq!(sent(&sender).len(), 1);
}

#[test]
fn concurrent_form_submission_is_handled_gracefully() {
    let mut store = store_with_confirmed_subscriber();
    let mut sender = ScriptedSender::new(Vec::new());
    let key = "a1f3".to_string();
    let response_1 = store.publish(1, &key, &newsletter(), 100).unwrap();
    let response_2 = store.publish(1, &key, &newsletter(), 100).unwrap();
    assert_eq!(response_1.status_code, response_2.status_code);
    assert_eq!(response_1.body, response_2.body);
    assert_eq!(outcome_parts(&response_1), outcome_parts(&response_2));
    store.drain_now(&mut sender, 100);
    assert_eq!(sent(&sender).len(), 1);
}

#[test]
fn a_duplicate_waits_while_the_first_request_is_in_flight() {
    let mut store = store_with_confirmed_subscriber();
    let key = "in-flight".to_string();
    assert!(matches!(
        store.try_claim(1, &key, 100),
        robust_rust::store::ClaimOutcome::Claimed
    ));
    assert_eq!(
        store.publish(1, &key, &newsletter(), 100).err(),
        Some(PublishError::ConflictInProgress)
    );
    assert_eq!(store.issue_count(), 0);
    assert_eq!(store.queue_len(), 0);
    assert_eq!(store.save_response(1, &key, HttpOutcome::accepted()), Ok(()));
    let replayed = store.publish(1, &key, &newsletter(), 100).unwrap();
    assert_eq!(outcome_parts(&replayed), outcome_parts(&HttpOutcome::accepted()));
    assert_eq!(store.issue_count(), 0);
}

#[test]
fn the_same_key_of_another_owner_is_independent() {
    let mut store = store_with_confirmed_subscriber();
    let key = "shared".to_string();
    store.publish(1, &key, &newsletter(), 100).unwrap();
    store.publish(2, &key, &newsletter(), 100).unwrap();
    assert_eq!(store.issue_count(), 2);
    assert_eq!(store.queue_len(), 2);
}

#[test]
fn a_title_is_required() {
    let mut store = store_with_confirmed_subscriber();
    let content = IssueContent {
        title: "".to_string(),
        text_body: "text".to_string(),
        html_body: "<p>html</p>".to_string(),
    };
    assert_eq!(
        store.publish(1, &"k".to_string(), &content, 100).err(),
        Some(PublishError::EmptyTitle)
    );
    assert_eq!(store.issue_count(), 0);
}

#[test]
fn both_bodies_are_required() {
    let mut store = store_with_confirmed_subscriber();
    let no_html = IssueContent {
        title: "t".to_string(),
        text_body: "text".to_string(),
        html_body: "".to_string(),
    };
    let no_text = IssueContent {
        title: "t".to_string(),
        text_body: "".to_string(),
        html_body: "<p>html</p>".to_string(),
    };
    assert_eq!(
        store.publish(1, &"k".to_string(), &no_html, 100).err(),
        Some(PublishError::EmptyContent)
    );
    assert_eq!(
        store.publish(1, &"k".to_string(), &no_text, 100).err(),
        Some(PublishError::EmptyContent)
    );
    // A refused request claims nothing: the key is still free.
    assert!(store.publish(1, &"k".to_string(), &newsletter(), 100).is_ok());
    assert_eq!(store.issue_count(), 1);
}

#[test]
fn one_task_is_queued_per_confirmed_subscriber() {
    let mut store = Store::new();
    assert!(store.add_confirmed_subscriber(1, "a@example.com".to_string()));
    assert!(store.add_confirmed_subscriber(2, "b@example.com".to_string()));
    assert!(store.add_confirmed_subscriber(3, "c@example.com".to_string()));
    assert!(!store.add_confirmed_subscriber(2, "other@example.com".to_string()));
    store.publish(9, &"k".to_string(), &newsletter(), 100).unwrap();
    assert_eq!(store.queue_len(), 3);
    assert_eq!(store.task_retries(0, 1), Some(0));
    assert_eq!(store.task_retries(0, 2), Some(0));
    assert_eq!(store.task_retries(0, 3), Some(0));
    assert_eq!(store.task_retries(0, 4), None);
}

#[test]
fn each_confirmed_subscriber_gets_the_issue_exactly_once() {
    let mut store = Store::new();
    assert!(store.add_confirmed_subscriber(1, "a@example.com".to_string()));
    assert!(store.add_confirmed_subscriber(2, "b@example.com".to_string()));
    assert!(store.add_confirmed_subscriber(3, "c@example.com".to_string()));
    let mut sender = ScriptedSender::new(Vec::new());
    store.publish(1, &"k".to_string(), &newsletter(), 100).unwrap();
    store.drain_now(&mut sender, 100);
    store.drain_now(&mut sender, 10_000_000);
    let recipients: Vec<String> = sent(&sender).iter().map(|s| s.0.clone()).collect();
    assert_eq!(
        recipients,
        vec!["a@example.com".to_string(), "b@example.com".to_string(), "c@example.com".to_string()]
    );
    assert_eq!(store.queue_len(), 0);
    assert_eq!(store.abandoned_count(), 0);
}

#[test]
fn a_drain_records_each_send_with_its_content() {
    let mut store = Store::new();
    assert!(store.add_confirmed_subscriber(1, "a@example.com".to_string()));
    assert!(store.add_confirmed_subscriber(2, "b@example.com".to_string()));
    let mut sender = ScriptedSender::new(Vec::new());
    store.publish(1, &"k".to_string(), &newsletter(), 100).unwrap();
    let attempts = store.drain_now(&mut sender, 100);
    assert_eq!(attempts.len(), 2);
    assert_eq!(attempts[0].task.subscriber_email, "a@example.com");
    assert_eq!(attempts[1].task.subscriber_email, "b@example.com");
    for attempt in attempts.iter() {
        assert_eq!(attempt.task.issue_id, 0);
        assert_eq!(attempt.task.title, "Newsletter title");
        assert_eq!(attempt.task.html_body, "<p>Newsletter body as HTML</p>");
        assert_eq!(attempt.task.text_body, "Newsletter body as plain text");
        assert_eq!(attempt.result, Ok(()));
    }
    assert!(store.drain_now(&mut sender, 100).is_empty());
    assert_eq!(sent(&sender).len(), 2);
}

#[test]
fn a_drain_of_an_empty_queue_sends_nothing() {
    let mut store = Store::new();
    let mut sender = ScriptedSender::new(Vec::new());
    assert!(store.drain_now(&mut sender, 100).is_empty());
    assert!(sent(&sender).is_empty());
}
