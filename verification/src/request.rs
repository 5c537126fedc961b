use vstd::prelude::*;
use crate::headers::{Headers, HeaderPair, hdrs_sorted, spec_insert, fold_name};

verus! {

/// The mathematical content of a request.
pub ghost struct ReqModel {
    pub url: Seq<char>,
    pub method: Seq<char>,
    pub headers: Seq<HeaderPair>,
    pub body: Option<Seq<u8>>,
}

/// An HTTP request as the engine sees it: a method, a URL, a canonical
/// header map and an optional body, all held as plain values.
#[derive(Debug, Clone, PartialEq, Eq)]
pub struct Request {
    /// The request URL.
    pub url: String,
    /// The request method, e.g. `GET`.
    pub method: String,
    /// The headers, kept canonical (sorted by name).
    pub headers: Headers,
    /// The body bytes, if the request carries a body.
    pub body: Option<Vec<u8>>,
}

impl View for Request {
    type V = ReqModel;

    open spec fn view(&self) -> ReqModel {
        ReqModel {
            url: self.url@,
            method: self.method@,
            headers: self.headers@,
            body: match self.body {
                Option::Some(b) => Option::Some(b@),
                Option::None => Option::None,
            },
        }
    }
}

/// Equality of byte vectors, decided element by element.
pub(crate) fn bytes_eq(a: &Vec<u8>, b: &Vec<u8>) -> (r: bool)
    ensures
        r == (a@ == b@),
{
    if a.len() != b.len() {
        return false;
    }
    let n = a.len();
    let mut i: usize = 0;
    while i < n
        invariant
            i <= n,
            n == a@.len(),
            n == b@.len(),
            forall|k: int| 0 <= k < i ==> a@[k] == b@[k],
        decreases n - i,
    {
        if a[i] != b[i] {
            return false;
        }
        i = i + 1;
    }
    proof {
        assert(a@ =~= b@);
    }
    true
}

impl Request {
    /// A request is well formed when its header map is canonical.
    pub open spec fn wf(&self) -> bool {
        hdrs_sorted(self@.headers)
    }

    /// A bodyless request with the given method and URL and no headers.
    pub fn new(method: &str, url: &str) -> (r: Request)
        ensures
            r@.method == method@,
            r@.url == url@,
            r@.headers == Seq::<HeaderPair>::empty(),
            r@.body is None,
            r.wf(),
    {
        Request {
            url: url.to_owned(),
            method: method.to_owned(),
            headers: Headers::new(),
            body: None,
        }
    }

    /// Set the header `name` to `value`, the name folded to its ASCII
    /// lowercase form; the rest of the request is unchanged and the header
    /// map stays canonical.
    pub fn insert_header(&mut self, name: &str, value: &str)
        ensures
            final(self)@.headers == spec_insert(old(self)@.headers, fold_name(name@), value@),
            final(self)@.url == old(self)@.url,
            final(self)@.method == old(self)@.method,
            final(self)@.body == old(self)@.body,
            old(self).wf() ==> final(self).wf(),
    {
        self.headers.insert(name, value);
    }

    /// Replace the body with the given bytes.
    pub fn set_body(&mut self, body: Vec<u8>)
        ensures
            final(self)@ == (ReqModel { body: Option::Some(body@), ..old(self)@ }),
    {
        self.body = Some(body);
    }

    /// Whether the two requests are structurally equal: same URL, method,
    /// headers and body.
    pub fn matches(&self, other: &Request) -> (r: bool)
        ensures
            r == (self@ == other@),
    {
        if !(self.url == other.url) {
            return false;
        }
        if !(self.method == other.method) {
            return false;
        }
        if !self.headers.same_entries(&other.headers) {
            return false;
        }
        match (&self.body, &other.body) {
            (None, None) => true,
            (Some(a), Some(b)) => bytes_eq(a, b),
            _ => false,
        }
    }
}

} // verus!
