use vstd::prelude::*;

verus! {

/// The query of a confirmation link.
pub struct Parameters {
    pub subscription_token: String,
}

#[verifier::external_type_specification]
#[verifier::external_body]
pub struct ExAnyhowError(anyhow::Error);

/// Why a confirmation failed.
pub enum ConfirmationError {
    UnexpectedError(anyhow::Error),
    InvalidToken,
}

pub open spec fn confirmation_status(e: &ConfirmationError) -> u16 {
    match e {
        ConfirmationError::UnexpectedError(_) => 401,
        ConfirmationError::InvalidToken => 500,
    }
}

impl ConfirmationError {
    /// The HTTP status code that reports this error.
    pub fn status_code(&self) -> (r: u16)
        ensures
            r == confirmation_status(self),
    {
        match self {
            ConfirmationError::UnexpectedError(_) => 401,
            ConfirmationError::InvalidToken => 500,
        }
    }
}

/// The status that a confirmed subscription has.
pub open spec fn confirmed_status() -> Seq<char> {
    "confirmed"@
}

/// Whether a subscription with status `status` is confirmed already; such a
/// subscription is not confirmed a second time.
pub fn is_already_confirmed(status: &String) -> (r: bool)
    ensures
        r == (status@ == confirmed_status()),
{
    status.eq(&String::from_str("confirmed"))
}

} // verus!
