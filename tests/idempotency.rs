use robust_rust::model::IdempotencyError;
use robust_rust::outcome::{HeaderPair, HttpOutcome};
use robust_rust::store::{ClaimOutcome, Store};

fn outcome() -> HttpOutcome {
    HttpOutcome {
        status_code: 201,
        headers: vec![
            HeaderPair { name: "content-type".to_string(), value: "text/plain".to_string() },
            HeaderPair { name: "x-request".to_string(), value: "1".to_string() },
        ],
        body: b"created".to_vec(),
    }
}

#[test]
fn claiming_a_free_key_then_racing_for_it() {
    let mut store = Store::new();
    let key = "k".to_string();
    assert!(matches!(store.try_claim(5, &key, 10), ClaimOutcome::Claimed));
    assert!(matches!(store.try_claim(5, &key, 11), ClaimOutcome::AlreadyClaimed(None)));
    assert_eq!(store.save_response(5, &key, outcome()), Ok(()));
    match store.try_claim(5, &key, 12) {
        ClaimOutcome::AlreadyClaimed(Some(saved)) => {
            assert_eq!(saved.status_code, 201);
            assert_eq!(saved.headers.len(), 2);
            assert_eq!(saved.headers[0].name, "content-type");
            assert_eq!(saved.headers[0].value, "text/plain");
            assert_eq!(saved.headers[1].name, "x-request");
            assert_eq!(saved.headers[1].value, "1");
            assert_eq!(saved.body, b"created".to_vec());
        }
        _ => panic!("the saved response was not returned"),
    }
}

#[test]
fn a_released_key_can_be_claimed_again() {
    let mut store = Store::new();
    let key = "k".to_string();
    assert!(matches!(store.try_claim(5, &key, 10), ClaimOutcome::Claimed));
    assert_eq!(store.release_claim(5, &key), Ok(()));
    assert!(matches!(store.try_claim(5, &key, 11), ClaimOutcome::Claimed));
}

#[test]
fn a_response_is_saved_once() {
    let mut store = Store::new();
    let key = "k".to_string();
    assert_eq!(store.save_response(5, &key, outcome()), Err(IdempotencyError::NotClaimed));
    assert_eq!(store.release_claim(5, &key), Err(IdempotencyError::NotClaimed));
    assert!(matches!(store.try_claim(5, &key, 10), ClaimOutcome::Claimed));
    assert_eq!(store.save_response(5, &key, outcome()), Ok(()));
    assert_eq!(store.save_response(5, &key, outcome()), Err(IdempotencyError::AlreadySaved));
    assert_eq!(store.release_claim(5, &key), Err(IdempotencyError::AlreadySaved));
}

#[test]
fn a_duplicated_outcome_is_identical() {
    let original = outcome();
    let copy = original.duplicate();
    assert_eq!(copy.status_code, original.status_code);
    assert_eq!(copy.body, original.body);
    assert_eq!(copy.headers.len(), original.headers.len());
    for (a, b) in copy.headers.iter().zip(original.headers.iter()) {
        assert_eq!(a.name, b.name);
        assert_eq!(a.value, b.value);
    }
}
