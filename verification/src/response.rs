use vstd::prelude::*;
use vstd::utf8::{valid_utf8, decode_utf8};
use crate::error::Error;
use crate::headers::{Headers, HeaderPair};

verus! {

/// The mathematical content of a response.
pub ghost struct RespModel {
    pub url: Seq<char>,
    pub status: u16,
    pub headers: Seq<HeaderPair>,
    pub body: Seq<u8>,
}

/// An HTTP response as the engine sees it: the final URL, the status code,
/// a header map and the body bytes.
#[derive(Debug, PartialEq, Eq)]
pub struct Response {
    /// The final URL of this response.
    pub url: String,
    /// The status code.
    pub status: u16,
    /// The response headers.
    pub headers: Headers,
    /// The response body in binary form.
    pub body: Vec<u8>,
}

impl View for Response {
    type V = RespModel;

    open spec fn view(&self) -> RespModel {
        RespModel {
            url: self.url@,
            status: self.status,
            headers: self.headers@,
            body: self.body@,
        }
    }
}

impl Clone for Response {
    /// An equal response, field by field.
    fn clone(&self) -> (r: Self)
        ensures
            r@ == self@,
    {
        Response {
            url: self.url.clone(),
            status: self.status,
            headers: self.headers.clone(),
            body: crate::store::copy_bytes(&self.body),
        }
    }
}

impl Response {
    /// The body decoded as UTF-8, or `InvalidUtf8` if it is not valid UTF-8.
    pub fn body_to_utf8(&self) -> (r: Result<String, Error>)
        ensures
            valid_utf8(self@.body) ==> (r matches Ok(s) && s@ == decode_utf8(self@.body)),
            !valid_utf8(self@.body) ==> r == Err::<String, Error>(Error::InvalidUtf8),
    {
        match crate::codec::string_from_utf8(&self.body) {
            Some(s) => Ok(s),
            None => Err(Error::InvalidUtf8),
        }
    }
}

} // verus!
