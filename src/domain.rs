//! The validated values that a subscription is made of.
use vstd::prelude::*;

pub mod subscriber_email;
pub mod subscriber_name;

use subscriber_email::SubscriberEmail;
use subscriber_name::{has_forbidden, trim_of, MAX_NAME_BYTES};
use vstd::utf8::encode_utf8;

verus! {

/// A subscriber whose name and email address were both validated.
pub struct NewSubscriber {
    pub email: SubscriberEmail,
    pub name: subscriber_name::SubscriberName,
}

/// A name taken as it was given, once the caller has checked it: not blank,
/// not too long, and free of forbidden characters.
pub struct SubscriberName(String);

/// What a name taken as given must satisfy.
pub open spec fn is_acceptable_name(s: Seq<char>) -> bool {
    &&& trim_of(s).len() > 0
    &&& encode_utf8(s).len() <= MAX_NAME_BYTES
    &&& !has_forbidden(s)
}

impl View for SubscriberName {
    type V = Seq<char>;

    closed spec fn view(&self) -> Seq<char> {
        self.0@
    }
}

impl SubscriberName {
    /// The name as text.
    pub fn inner_ref(&self) -> (r: &str)
        ensures
            r@ == self@,
    {
        self.0.as_str()
    }

    /// Takes an acceptable name as it is.
    pub fn parse(s: String) -> (r: SubscriberName)
        requires
            is_acceptable_name(s@),
        ensures
            r@ == s@,
    {
        SubscriberName(s)
    }
}

} // verus!
