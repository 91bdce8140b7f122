use robust_rust::configuration::{ApplicationSettings, Environment};

#[test]
fn environments_have_their_names() {
    assert_eq!(Environment::Local.as_str(), "local");
    assert_eq!(Environment::Production.as_str(), "production");
}

#[test]
fn environment_names_are_read_in_any_case() {
    assert_eq!(Environment::try_from("local".to_string()), Ok(Environment::Local));
    assert_eq!(Environment::try_from("PRODUCTION".to_string()), Ok(Environment::Production));
    assert_eq!(Environment::try_from("Local".to_string()), Ok(Environment::Local));
}

#[test]
fn an_unknown_environment_is_rejected() {
    assert_eq!(
        Environment::try_from("Staging".to_string()),
        Err("Staging is not a supported environment. Use either local or production".to_string())
    );
}

#[test]
fn application_settings_hold_host_and_port() {
    let settings = ApplicationSettings { port: 8000, host: "127.0.0.1".to_string() };
    assert_eq!(settings.port, 8000);
    assert_eq!(settings.host, "127.0.0.1");
}

#[test]
fn only_lowercase_names_denote_an_environment() {
    assert_eq!(Environment::from_name(&"local".to_string()), Some(Environment::Local));
    assert_eq!(Environment::from_name(&"production".to_string()), Some(Environment::Production));
    assert_eq!(Environment::from_name(&"Local".to_string()), None);
}
