use vstd::prelude::*;

use vstd::utf8::encode_utf8;

verus! {

/// The characters that `char::is_whitespace` accepts: those with the Unicode
/// `White_Space` property.
pub open spec fn is_white_space(c: char) -> bool {
    ('\u{9}' <= c && c <= '\u{d}') || c == ' ' || c == '\u{85}' || c == '\u{a0}' || c == '\u{1680}'
        || ('\u{2000}' <= c && c <= '\u{200a}') || c == '\u{2028}' || c == '\u{2029}' || c
        == '\u{202f}' || c == '\u{205f}' || c == '\u{3000}'
}

/// `s` without its leading white space.
pub open spec fn trim_start_of(s: Seq<char>) -> Seq<char>
    decreases s.len(),
{
    if s.len() > 0 && is_white_space(s[0]) {
        trim_start_of(s.drop_first())
    } else {
        s
    }
}

/// `s` without its trailing white space.
pub open spec fn trim_end_of(s: Seq<char>) -> Seq<char>
    decreases s.len(),
{
    if s.len() > 0 && is_white_space(s.last()) {
        trim_end_of(s.drop_last())
    } else {
        s
    }
}

/// `s` without its leading and trailing white space.
pub open spec fn trim_of(s: Seq<char>) -> Seq<char> {
    trim_end_of(trim_start_of(s))
}

proof fn lemma_trim_start_shape(s: Seq<char>)
    ensures
        trim_start_of(s).len() == 0 || !is_white_space(trim_start_of(s)[0]),
    decreases s.len(),
{
    if s.len() > 0 && is_white_space(s[0]) {
        lemma_trim_start_shape(s.drop_first());
    }
}

proof fn lemma_trim_end_shape(s: Seq<char>)
    ensures
        trim_end_of(s).len() <= s.len(),
        trim_end_of(s) == s.subrange(0, trim_end_of(s).len() as int),
        trim_end_of(s).len() == 0 || !is_white_space(trim_end_of(s).last()),
    decreases s.len(),
{
    if s.len() > 0 && is_white_space(s.last()) {
        lemma_trim_end_shape(s.drop_last());
        assert(s.drop_last().subrange(0, trim_end_of(s).len() as int) =~= s.subrange(
            0,
            trim_end_of(s).len() as int,
        ));
    } else {
        assert(s.subrange(0, s.len() as int) =~= s);
    }
}

/// Trimming a trimmed string changes nothing.
pub proof fn lemma_trim_idempotent(s: Seq<char>)
    ensures
        trim_of(trim_of(s)) == trim_of(s),
{
    let x = trim_start_of(s);
    let t = trim_end_of(x);
    lemma_trim_start_shape(s);
    lemma_trim_end_shape(x);
    if t.len() > 0 {
        assert(t[0] == x[0]);
    }
    assert(trim_start_of(t) == t);
    assert(trim_end_of(t) == t);
}

/// Relies on `str::trim`: `s` without its leading and trailing white space,
/// white space being what `char::is_whitespace` accepts.
#[verifier::external_body]
fn trim(s: &str) -> (r: &str)
    ensures
        r@ == trim_of(s@),
{
    s.trim()
}

/// The characters that a subscriber name may not contain.
pub open spec fn is_forbidden(c: char) -> bool {
    c == '/' || c == '(' || c == ')' || c == '"' || c == '<' || c == '>' || c == '\\' || c == '{'
        || c == '}'
}

pub open spec fn has_forbidden(s: Seq<char>) -> bool {
    exists|i: int| 0 <= i < s.len() && is_forbidden(#[trigger] s[i])
}

/// The longest name, in bytes.
pub const MAX_NAME_BYTES: usize = 256;

/// A trimmed name is accepted when it is not empty, fits in
/// `MAX_NAME_BYTES` bytes of UTF-8, and holds no forbidden character.
pub open spec fn is_valid_name(name: Seq<char>) -> bool {
    &&& name.len() > 0
    &&& encode_utf8(name).len() <= MAX_NAME_BYTES
    &&& !has_forbidden(name)
}

pub open spec fn invalid_name_message(name: Seq<char>) -> Seq<char> {
    "`"@ + name
        + "` is not a valid subscriber name. Subscriber name cannot be empty, more than 256 characters long, or contain the following characters: ['/', '(', ')', '\"', '<', '>', '\\\\', '{', '}']"@
}

/// Whether `s` holds a forbidden character.
pub(crate) fn contains_forbidden_character(s: &str) -> (r: bool)
    ensures
        r == has_forbidden(s@),
{
    let n = s.unicode_len();
    let mut i: usize = 0;
    while i < n
        invariant
            n == s@.len(),
            i <= n,
            forall|j: int| 0 <= j < i ==> !is_forbidden(#[trigger] s@[j]),
        decreases n - i,
    {
        let c = s.get_char(i);
        if c == '/' || c == '(' || c == ')' || c == '"' || c == '<' || c == '>' || c == '\\' || c
            == '{' || c == '}' {
            assert(is_forbidden(s@[i as int]));
            return true;
        }
        i = i + 1;
    }
    false
}

/// A subscriber's name: trimmed, not blank, not too long, and free of the
/// characters that could inject markup.
pub struct SubscriberName(String);

impl View for SubscriberName {
    type V = Seq<char>;

    closed spec fn view(&self) -> Seq<char> {
        self.0@
    }
}

impl SubscriberName {
    /// Parses a name: the trimmed form of `s` if it is a valid name, else the
    /// reason it is not.
    pub fn parse(s: String) -> (r: Result<SubscriberName, String>)
        ensures
            match r {
                Ok(n) => is_valid_name(trim_of(s@)) && n@ == trim_of(s@),
                Err(m) => !is_valid_name(trim_of(s@)) && m@ == invalid_name_message(trim_of(s@)),
            },
    {
        let name = String::from_str(trim(s.as_str()));
        proof {
            lemma_trim_idempotent(s@);
        }
        let is_empty_or_whitespace = trim(name.as_str()).unicode_len() == 0;
        let is_too_long = name.as_str().as_bytes().len() > MAX_NAME_BYTES;
        let contains_forbidden_characters = contains_forbidden_character(name.as_str());
        if is_empty_or_whitespace || is_too_long || contains_forbidden_characters {
            let mut message = String::from_str("`");
            message.append(name.as_str());
            message.append(
                "` is not a valid subscriber name. Subscriber name cannot be empty, more than 256 characters long, or contain the following characters: ['/', '(', ')', '\"', '<', '>', '\\\\', '{', '}']",
            );
            Err(message)
        } else {
            Ok(SubscriberName(name))
        }
    }

    /// The name as text.
    pub fn as_ref(&self) -> (r: &str)
        ensures
            r@ == self@,
    {
        self.0.as_str()
    }
}

} // verus!
