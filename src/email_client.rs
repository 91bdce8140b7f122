//! What the core needs of the email transport, and how its failures are told
//! apart.
use vstd::prelude::*;

verus! {

/// The body of a request to the email API.
pub struct SendEmailRequest<'a> {
    pub from: &'a str,
    pub to: &'a str,
    pub subject: &'a str,
    pub html_body: &'a str,
    pub text_body: &'a str,
}

/// Why a delivery failed: a transient failure may pass if tried again later,
/// a permanent one will not.
#[derive(PartialEq, Eq, Structural, Clone, Copy, Debug)]
pub enum DeliveryError {
    Transient,
    Permanent,
}

/// The email transport: sends one email and reports whether it went out.
pub trait EmailSender {
    /// The emails handed to this sender so far, in order: recipient,
    /// subject, HTML body and plain-text body.
    spec fn sent(&self) -> Seq<(Seq<char>, Seq<char>, Seq<char>, Seq<char>)>;

    /// Hands one email to the transport; whatever the outcome, the email is
    /// counted as handed over.
    fn send(&mut self, recipient: &str, subject: &str, html_body: &str, text_body: &str) -> (r:
        Result<(), DeliveryError>)
        ensures
            final(self).sent() == old(self).sent().push(
                (recipient@, subject@, html_body@, text_body@),
            ),
    ;
}

/// An email as a transport received it.
pub struct OutgoingEmail {
    pub recipient: String,
    pub subject: String,
    pub html_body: String,
    pub text_body: String,
}

pub open spec fn outgoing_view(e: OutgoingEmail) -> (Seq<char>, Seq<char>, Seq<char>, Seq<char>) {
    (e.recipient@, e.subject@, e.html_body@, e.text_body@)
}

/// A transport double: it keeps every email handed to it and answers from a
/// script, one answer per email in order, delivering once the script is spent.
pub struct ScriptedSender {
    answers: Vec<Result<(), DeliveryError>>,
    next: usize,
    outbox: Vec<OutgoingEmail>,
}

impl ScriptedSender {
    /// A double that will answer `answers`, in order, and then deliver.
    pub fn new(answers: Vec<Result<(), DeliveryError>>) -> (r: ScriptedSender)
        ensures
            r.sent() == Seq::<(Seq<char>, Seq<char>, Seq<char>, Seq<char>)>::empty(),
    {
        let r = ScriptedSender { answers, next: 0, outbox: Vec::new() };
        assert(r.outbox@.map_values(|e: OutgoingEmail| outgoing_view(e)) =~= Seq::empty());
        r
    }

    /// The emails handed over so far, in order.
    pub fn emails(&self) -> (r: &Vec<OutgoingEmail>)
        ensures
            r@.map_values(|e: OutgoingEmail| outgoing_view(e)) == self.sent(),
    {
        &self.outbox
    }
}

impl EmailSender for ScriptedSender {
    closed spec fn sent(&self) -> Seq<(Seq<char>, Seq<char>, Seq<char>, Seq<char>)> {
        self.outbox@.map_values(|e: OutgoingEmail| outgoing_view(e))
    }

    fn send(&mut self, recipient: &str, subject: &str, html_body: &str, text_body: &str) -> (r:
        Result<(), DeliveryError>)
    {
        let e = OutgoingEmail {
            recipient: String::from_str(recipient),
            subject: String::from_str(subject),
            html_body: String::from_str(html_body),
            text_body: String::from_str(text_body),
        };
        proof {
            crate::seq_facts::lemma_map_push(
                self.outbox@,
                e,
                |e: OutgoingEmail| outgoing_view(e),
            );
        }
        self.outbox.push(e);
        if self.next < self.answers.len() {
            let answer = self.answers[self.next];
            self.next = self.next + 1;
            answer
        } else {
            Ok(())
        }
    }
}

/// How a failure with HTTP status `status` is classed: a rejection of the
/// request itself (a 4xx other than a timeout or a throttle) will not pass
/// when tried again; anything else might.
pub open spec fn status_failure(status: u16) -> DeliveryError {
    if 400 <= status < 500 && status != 408 && status != 429 {
        DeliveryError::Permanent
    } else {
        DeliveryError::Transient
    }
}

/// Classes a failed response of the email API by its status code.
pub fn classify_status(status: u16) -> (r: DeliveryError)
    ensures
        r == status_failure(status),
{
    if 400 <= status && status < 500 && status != 408 && status != 429 {
        DeliveryError::Permanent
    } else {
        DeliveryError::Transient
    }
}

} // verus!
