use robust_rust::domain::subscriber_email::SubscriberEmail;

#[test]
fn subscriber_email_empty_string_is_rejected() {
    let email = "".to_string();
    assert!(SubscriberEmail::parse(email).is_err());
}

#[test]
fn whitespace_only_string_is_rejected() {
    let email = "   ".to_string();
    assert!(SubscriberEmail::parse(email).is_err());
}

#[test]
fn email_missing_at_symbol_is_rejected() {
    let email = "lawal.gmail.com".to_string();
    assert!(SubscriberEmail::parse(email).is_err());
}

#[test]
fn email_missing_subject_is_rejected() {
    let email = "@gmail.com".to_string();
    assert!(SubscriberEmail::parse(email).is_err());
}

#[test]
fn valid_email_is_parsed_successfully() {
    let email = "lawal@gmail.com".to_string();
    assert!(SubscriberEmail::parse(email).is_ok());
}

#[test]
fn email_with_double_at_symbol_is_rejected() {
    let email = "lawal@@gmail.com".to_string();
    assert!(SubscriberEmail::parse(email).is_err());
}

#[test]
fn a_valid_email_is_kept_verbatim() {
    let email = SubscriberEmail::parse("ursula_le_guin@gmail.com".to_string()).unwrap();
    assert_eq!(email.as_ref(), "ursula_le_guin@gmail.com");
    assert_eq!(email.duplicate().as_ref(), "ursula_le_guin@gmail.com");
}

#[test]
fn an_invalid_email_is_named_in_the_error() {
    let message = match SubscriberEmail::parse("definitely_not_an_email".to_string()) {
        Ok(_) => panic!("an address without '@' was accepted"),
        Err(m) => m,
    };
    assert_eq!(message, "`definitely_not_an_email` is not a valid email address.");
}

#[test]
fn a_form_with_an_email_without_at_is_rejected() {
    use_form("le guin", "ursula_le_guin.gmail.com");
}

fn use_form(name: &str, email: &str) {
    let form = robust_rust::routes::subscriptions::FormData {
        email: email.to_string(),
        name: name.to_string(),
    };
    assert!(robust_rust::domain::NewSubscriber::try_from(form).is_err());
}
