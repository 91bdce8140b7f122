use vstd::prelude::*;

verus! {

/// Whether `s` is an email address as `validator::validate_email` judges it.
pub uninterp spec fn valid_email_of(s: Seq<char>) -> bool;

/// Relies on `validator::validate_email`: whether `s` is an email address in
/// the HTML5 sense. The judgement depends on the characters of `s` alone, and
/// a string that is empty or holds no `@` is refused before anything else.
#[verifier::external_body]
fn email_is_valid(s: &str) -> (r: bool)
    ensures
        r == valid_email_of(s@),
        s@.len() == 0 ==> !r,
        !s@.contains('@') ==> !r,
{
    validator::validate_email(s)
}

pub open spec fn invalid_email_message(s: Seq<char>) -> Seq<char> {
    "`"@ + s + "` is not a valid email address."@
}

/// A subscriber's email address, as validated.
pub struct SubscriberEmail(String);

impl View for SubscriberEmail {
    type V = Seq<char>;

    closed spec fn view(&self) -> Seq<char> {
        self.0@
    }
}

impl SubscriberEmail {
    /// Parses an email address: `s` itself if it is valid, else the reason it
    /// is not.
    pub fn parse(s: String) -> (r: Result<SubscriberEmail, String>)
        ensures
            match r {
                Ok(e) => valid_email_of(s@) && e@ == s@,
                Err(m) => !valid_email_of(s@) && m@ == invalid_email_message(s@),
            },
            s@.len() == 0 || !s@.contains('@') ==> r is Err,
    {
        if email_is_valid(s.as_str()) {
            Ok(SubscriberEmail(s))
        } else {
            let mut message = String::from_str("`");
            message.append(s.as_str());
            message.append("` is not a valid email address.");
            Err(message)
        }
    }

    /// The address as text.
    pub fn as_ref(&self) -> (r: &str)
        ensures
            r@ == self@,
    {
        self.0.as_str()
    }

    /// A copy of the address.
    pub fn duplicate(&self) -> (r: SubscriberEmail)
        ensures
            r@ == self@,
    {
        SubscriberEmail(self.0.clone())
    }
}

} // verus!
