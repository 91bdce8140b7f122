//! The parts of the configuration that the application reads as plain values.
use vstd::prelude::*;

use crate::text::joined;

verus! {

/// Where the application listens.
pub struct ApplicationSettings {
    pub port: u16,
    pub host: String,
}

/// The runtime environment: `local` or `production`.
#[derive(PartialEq, Eq, Structural, Clone, Copy, Debug)]
pub enum Environment {
    Local,
    Production,
}

/// The lowercase form of `s`, as `str::to_lowercase` computes it.
pub uninterp spec fn lower_of(s: Seq<char>) -> Seq<char>;

/// Relies on `str::to_lowercase`: the lowercase form of `s`, which depends on
/// the characters of `s` alone; an empty string stays empty.
#[verifier::external_body]
fn lowercase(s: &str) -> (r: String)
    ensures
        r@ == lower_of(s@),
        s@.len() == 0 ==> r@.len() == 0,
{
    s.to_lowercase()
}

pub open spec fn environment_name(e: Environment) -> Seq<char> {
    match e {
        Environment::Local => "local"@,
        Environment::Production => "production"@,
    }
}

/// The environment that a (lowercased) name denotes, if any.
pub open spec fn environment_of(name: Seq<char>) -> Option<Environment> {
    if name == "local"@ {
        Some(Environment::Local)
    } else if name == "production"@ {
        Some(Environment::Production)
    } else {
        None
    }
}

pub open spec fn unsupported_environment_message(value: Seq<char>) -> Seq<char> {
    value + " is not a supported environment. Use either local or production"@
}

impl Environment {
    /// The name of the environment, as configuration files are named.
    pub fn as_str(&self) -> (r: &'static str)
        ensures
            r@ == environment_name(*self),
    {
        match self {
            Environment::Local => "local",
            Environment::Production => "production",
        }
    }

    /// The environment of a name written in lowercase.
    pub fn from_name(name: &String) -> (r: Option<Environment>)
        ensures
            r == environment_of(name@),
    {
        if name.eq(&String::from_str("local")) {
            Some(Environment::Local)
        } else if name.eq(&String::from_str("production")) {
            Some(Environment::Production)
        } else {
            None
        }
    }

    /// The environment named by `value`, in any case.
    pub fn try_from(value: String) -> (r: Result<Environment, String>)
        ensures
            match r {
                Ok(e) => environment_of(lower_of(value@)) == Some(e),
                Err(m) => environment_of(lower_of(value@)) is None && m@
                    == unsupported_environment_message(value@),
            },
    {
        let lowered = lowercase(value.as_str());
        match Environment::from_name(&lowered) {
            Some(e) => Ok(e),
            None => Err(
                joined(
                    value.as_str(),
                    " is not a supported environment. Use either local or production",
                ),
            ),
        }
    }
}

} // verus!
