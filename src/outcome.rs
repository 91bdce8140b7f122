use vstd::prelude::*;

verus! {

/// One response header: its name and its value.
pub struct HeaderPair {
    pub name: String,
    pub value: String,
}

/// The HTTP outcome of a request: status code, ordered headers and body bytes.
pub struct HttpOutcome {
    pub status_code: u16,
    pub headers: Vec<HeaderPair>,
    pub body: Vec<u8>,
}

/// What an `HttpOutcome` is, as plain values.
pub struct OutcomeView {
    pub status_code: u16,
    pub headers: Seq<(Seq<char>, Seq<char>)>,
    pub body: Seq<u8>,
}

pub open spec fn header_view(h: HeaderPair) -> (Seq<char>, Seq<char>) {
    (h.name@, h.value@)
}

pub open spec fn headers_view(hs: Seq<HeaderPair>) -> Seq<(Seq<char>, Seq<char>)> {
    hs.map_values(|h: HeaderPair| header_view(h))
}

impl View for HttpOutcome {
    type V = OutcomeView;

    open spec fn view(&self) -> OutcomeView {
        OutcomeView {
            status_code: self.status_code,
            headers: headers_view(self.headers@),
            body: self.body@,
        }
    }
}

/// The status code of the response that accepts a newsletter issue.
pub const SEE_OTHER: u16 = 303;

/// The outcome that a first, successful publish returns: a redirect back to
/// the publishing form.
pub open spec fn accepted_outcome() -> OutcomeView {
    OutcomeView {
        status_code: SEE_OTHER,
        headers: seq![("location"@, "/admin/newsletters"@)],
        body: Seq::empty(),
    }
}

impl HttpOutcome {
    /// A copy of this outcome, header by header and byte by byte.
    pub fn duplicate(&self) -> (r: HttpOutcome)
        ensures
            r@ == self@,
    {
        let mut headers: Vec<HeaderPair> = Vec::new();
        let mut i: usize = 0;
        while i < self.headers.len()
            invariant
                i <= self.headers.len(),
                headers@.len() == i,
                headers_view(headers@) =~= headers_view(self.headers@.subrange(0, i as int)),
            decreases self.headers.len() - i,
        {
            let h = &self.headers[i];
            let c = HeaderPair { name: h.name.clone(), value: h.value.clone() };
            assert(header_view(c) == header_view(self.headers@[i as int]));
            let ghost prev = headers@;
            headers.push(c);
            assert(headers@ == prev.push(c));
            assert(forall|k: int|
                0 <= k < i ==> #[trigger] headers_view(headers@)[k] == headers_view(prev)[k]);
            assert(self.headers@.subrange(0, i + 1) =~= self.headers@.subrange(0, i as int).push(
                self.headers@[i as int],
            ));
            i = i + 1;
            assert(headers_view(headers@) =~= headers_view(self.headers@.subrange(0, i as int)));
        }
        assert(self.headers@.subrange(0, self.headers@.len() as int) =~= self.headers@);
        let mut body: Vec<u8> = Vec::new();
        let mut j: usize = 0;
        while j < self.body.len()
            invariant
                j <= self.body.len(),
                body@ =~= self.body@.subrange(0, j as int),
            decreases self.body.len() - j,
        {
            body.push(self.body[j]);
            j = j + 1;
        }
        assert(self.body@.subrange(0, self.body@.len() as int) =~= self.body@);
        HttpOutcome { status_code: self.status_code, headers, body }
    }

    /// The response that accepts a newsletter issue.
    pub fn accepted() -> (r: HttpOutcome)
        ensures
            r@ == accepted_outcome(),
    {
        let mut headers: Vec<HeaderPair> = Vec::new();
        headers.push(
            HeaderPair {
                name: String::from_str("location"),
                value: String::from_str("/admin/newsletters"),
            },
        );
        let r = HttpOutcome { status_code: SEE_OTHER, headers, body: Vec::new() };
        assert(r@.headers =~= accepted_outcome().headers);
        assert(r@.body =~= accepted_outcome().body);
        r
    }
}

} // verus!
