use vstd::prelude::*;

use crate::domain::subscriber_email::{invalid_email_message, valid_email_of, SubscriberEmail};
use crate::domain::subscriber_name::{invalid_name_message, is_valid_name, trim_of, SubscriberName};
use crate::domain::NewSubscriber;
use crate::text::push_char;

verus! {

/// The subscription form, as submitted.
pub struct FormData {
    pub email: String,
    pub name: String,
}

impl NewSubscriber {
    /// Validates a submitted form: the name first, then the email address.
    pub fn try_from(value: FormData) -> (r: Result<NewSubscriber, String>)
        ensures
            match r {
                Ok(s) => is_valid_name(trim_of(value.name@)) && s.name@ == trim_of(value.name@)
                    && valid_email_of(value.email@) && s.email@ == value.email@,
                Err(m) => if !is_valid_name(trim_of(value.name@)) {
                    m@ == invalid_name_message(trim_of(value.name@))
                } else {
                    !valid_email_of(value.email@) && m@ == invalid_email_message(value.email@)
                },
            },
            value.email@.len() == 0 || !value.email@.contains('@') ==> r is Err,
    {
        let name = match SubscriberName::parse(value.name) {
            Ok(n) => n,
            Err(m) => return Err(m),
        };
        let email = match SubscriberEmail::parse(value.email) {
            Ok(e) => e,
            Err(m) => return Err(m),
        };
        Ok(NewSubscriber { email, name })
    }
}

/// How many characters a subscription token has.
pub const SUBSCRIPTION_TOKEN_LENGTH: usize = 25;

/// An ASCII letter or digit.
pub open spec fn is_alphanumeric(c: char) -> bool {
    ('0' <= c && c <= '9') || ('A' <= c && c <= 'Z') || ('a' <= c && c <= 'z')
}

/// Relies on rand's `Alphanumeric` distribution, sampled with the thread-local
/// generator: an ASCII letter or digit, drawn at random.
#[verifier::external_body]
fn random_alphanumeric() -> (c: char)
    ensures
        is_alphanumeric(c),
{
    rand::Rng::sample(&mut rand::thread_rng(), rand::distributions::Alphanumeric) as char
}

/// A random, case-sensitive subscription token of
/// `SUBSCRIPTION_TOKEN_LENGTH` letters and digits.
pub fn generate_subscription_token() -> (r: String)
    ensures
        r@.len() == SUBSCRIPTION_TOKEN_LENGTH,
        forall|i: int| 0 <= i < r@.len() ==> is_alphanumeric(#[trigger] r@[i]),
{
    let mut token = String::new();
    let mut i: usize = 0;
    while i < SUBSCRIPTION_TOKEN_LENGTH
        invariant
            i <= SUBSCRIPTION_TOKEN_LENGTH,
            token@.len() == i,
            forall|j: int| 0 <= j < i ==> is_alphanumeric(#[trigger] token@[j]),
        decreases SUBSCRIPTION_TOKEN_LENGTH - i,
    {
        let c = random_alphanumeric();
        push_char(&mut token, c);
        i = i + 1;
    }
    token
}

/// The email that asks a new subscriber to confirm.
pub struct ConfirmationEmail {
    pub subject: String,
    pub html_body: String,
    pub text_body: String,
}

pub open spec fn confirmation_link_of(base_url: Seq<char>, token: Seq<char>) -> Seq<char> {
    base_url + "/subscriptions/confirm?subscription_token="@ + token
}

pub open spec fn confirmation_html_of(link: Seq<char>) -> Seq<char> {
    "Welcome to our newsletter!<br />Click <a href=\""@ + link
        + "\">here</a> to confirm your subscription."@
}

pub open spec fn confirmation_text_of(link: Seq<char>) -> Seq<char> {
    "Welcome to our newsletter!\nVisit "@ + link + " to confirm your subscription."@
}

/// The confirmation email for the token `subscription_token` of an
/// application served at `base_url`.
pub fn confirmation_email(base_url: &str, subscription_token: &str) -> (r: ConfirmationEmail)
    ensures
        r.subject@ == "Welcome!"@,
        r.html_body@ == confirmation_html_of(confirmation_link_of(base_url@, subscription_token@)),
        r.text_body@ == confirmation_text_of(confirmation_link_of(base_url@, subscription_token@)),
{
    let mut link = String::from_str(base_url);
    link.append("/subscriptions/confirm?subscription_token=");
    link.append(subscription_token);
    let mut html_body = String::from_str("Welcome to our newsletter!<br />Click <a href=\"");
    html_body.append(link.as_str());
    html_body.append("\">here</a> to confirm your subscription.");
    let mut text_body = String::from_str("Welcome to our newsletter!\nVisit ");
    text_body.append(link.as_str());
    text_body.append(" to confirm your subscription.");
    ConfirmationEmail { subject: String::from_str("Welcome!"), html_body, text_body }
}

} // verus!
