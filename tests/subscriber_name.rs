use robust_rust::domain::subscriber_name::SubscriberName;
use robust_rust::domain::SubscriberName as PlainSubscriberName;

#[test]
fn a_256_graheme_long_name_is_valid() {
    let name = "a".repeat(256);
    assert!(SubscriberName::parse(name).is_ok());
}

#[test]
fn a_name_longer_than_256_graphemes_is_rejected() {
    let name = "a".repeat(257);
    assert!(SubscriberName::parse(name).is_err());
}

#[test]
fn subscriber_name_empty_string_is_rejected() {
    let name = "".to_string();
    assert!(SubscriberName::parse(name).is_err());
}

#[test]
fn whitespace_only_name_is_rejected() {
    let name = " ".to_string();
    assert!(SubscriberName::parse(name).is_err());
}

#[test]
fn a_name_containing_a_invalid_character_is_rejected() {
    let invalid_characters = vec!['/', '(', ')', '"', '<', '>', '\\', '{', '}'];
    for character in invalid_characters {
        let name = format!("name{}", character);
        assert!(SubscriberName::parse(name).is_err());
    }
}

#[test]
fn a_name_containing_a_valid_character_is_valid() {
    let valid_characters = vec!['a', 'A', '1', '-', '.', '_'];
    for character in valid_characters {
        let name = format!("name{}", character);
        assert!(SubscriberName::parse(name).is_ok());
    }
}

#[test]
fn a_valid_name_is_trimmed() {
    let name = "  John Doe  ".to_string();
    let parsed_name = SubscriberName::parse(name).unwrap();
    assert_eq!(parsed_name.as_ref(), "John Doe");
}

#[test]
fn a_name_with_valid_characters_is_valid() {
    let name = "John Doe".to_string();
    assert!(SubscriberName::parse(name).is_ok());
}

#[test]
fn a_name_is_measured_in_bytes() {
    // 128 two-byte characters make 256 bytes; one more is too long.
    assert!(SubscriberName::parse("é".repeat(128)).is_ok());
    assert!(SubscriberName::parse("é".repeat(129)).is_err());
}

#[test]
fn a_rejected_name_is_reported_trimmed() {
    let message = match SubscriberName::parse(" a<b ".to_string()) {
        Ok(_) => panic!("a name with '<' was accepted"),
        Err(m) => m,
    };
    assert_eq!(
        message,
        "`a<b` is not a valid subscriber name. Subscriber name cannot be empty, more than 256 characters long, or contain the following characters: ['/', '(', ')', '\"', '<', '>', '\\\\', '{', '}']"
    );
}

#[test]
fn a_name_taken_as_given_is_kept_verbatim() {
    let name = PlainSubscriberName::parse("Ursula Le Guin".to_string());
    assert_eq!(name.inner_ref(), "Ursula Le Guin");
}

#[test]
fn unicode_white_space_is_trimmed() {
    let parsed = SubscriberName::parse("\u{3000}\tJohn Doe\u{a0}\n".to_string()).unwrap();
    assert_eq!(parsed.as_ref(), "John Doe");
    assert!(SubscriberName::parse("\u{2003}\u{85}".to_string()).is_err());
}
