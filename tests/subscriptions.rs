use robust_rust::domain::NewSubscriber;
use robust_rust::routes::subscriptions::{
    confirmation_email, generate_subscription_token, FormData, SUBSCRIPTION_TOKEN_LENGTH,
};
use robust_rust::routes::subscriptions_confirm::{
    is_already_confirmed, ConfirmationError, Parameters,
};

#[test]
fn a_valid_form_makes_a_new_subscriber() {
    let form = FormData {
        email: "ursula_le_guin@gmail.com".to_string(),
        name: " le guin ".to_string(),
    };
    let subscriber = NewSubscriber::try_from(form).unwrap();
    assert_eq!(subscriber.name.as_ref(), "le guin");
    assert_eq!(subscriber.email.as_ref(), "ursula_le_guin@gmail.com");
}

#[test]
fn a_form_with_an_empty_name_is_rejected() {
    let form = FormData { email: "ursula_le_guin@gmail.com".to_string(), name: "".to_string() };
    assert!(NewSubscriber::try_from(form).is_err());
}

#[test]
fn a_form_with_an_invalid_email_is_rejected() {
    let form = FormData {
        email: "definitely_not_an_email".to_string(),
        name: "le guin".to_string(),
    };
    let message = match NewSubscriber::try_from(form) {
        Ok(_) => panic!("an invalid email was accepted"),
        Err(m) => m,
    };
    assert_eq!(message, "`definitely_not_an_email` is not a valid email address.");
}

#[test]
fn a_form_with_both_fields_invalid_reports_the_name() {
    let form = FormData { email: "".to_string(), name: "".to_string() };
    let message = match NewSubscriber::try_from(form) {
        Ok(_) => panic!("an empty form was accepted"),
        Err(m) => m,
    };
    assert!(message.starts_with("`` is not a valid subscriber name."));
}

#[test]
fn subscription_tokens_are_25_letters_or_digits() {
    let token = generate_subscription_token();
    assert_eq!(token.chars().count(), SUBSCRIPTION_TOKEN_LENGTH);
    assert_eq!(token.len(), 25);
    assert!(token.chars().all(|c| c.is_ascii_alphanumeric()));
}

#[test]
fn two_subscription_tokens_differ() {
    assert_ne!(generate_subscription_token(), generate_subscription_token());
}

#[test]
fn the_confirmation_email_holds_the_link() {
    let email = confirmation_email("http://127.0.0.1", "abc123");
    assert_eq!(email.subject, "Welcome!");
    assert_eq!(
        email.html_body,
        "Welcome to our newsletter!<br />Click <a href=\"http://127.0.0.1/subscriptions/confirm?subscription_token=abc123\">here</a> to confirm your subscription."
    );
    assert_eq!(
        email.text_body,
        "Welcome to our newsletter!\nVisit http://127.0.0.1/subscriptions/confirm?subscription_token=abc123 to confirm your subscription."
    );
}

#[test]
fn confirmation_errors_map_to_status_codes() {
    let unexpected = ConfirmationError::UnexpectedError(anyhow::Error::msg("database down"));
    assert_eq!(unexpected.status_code(), 401);
    assert_eq!(ConfirmationError::InvalidToken.status_code(), 500);
    let parameters = Parameters { subscription_token: "abc".to_string() };
    assert_eq!(parameters.subscription_token, "abc");
}

#[test]
fn only_a_confirmed_status_counts_as_confirmed() {
    assert!(is_already_confirmed(&"confirmed".to_string()));
    assert!(!is_already_confirmed(&"pending_confirmation".to_string()));
    assert!(!is_already_confirmed(&"Confirmed".to_string()));
}
