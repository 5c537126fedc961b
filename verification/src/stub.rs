//! The stub store and matcher.
//!
//! A [`StubClient`] answers requests from a table of registered patterns.
//! The configured [`StubStrictness`] selects which request fields take part
//! in the match (the URL always does), and a pattern must set exactly those
//! fields: this is validated once, at registration.  On a miss the
//! configured [`StubDefault`] decides what happens.

use vstd::prelude::*;
use crate::config::ClientConfig;
use crate::error::Error;
use crate::fingerprint::spec_fingerprint;
use crate::headers::{
    Headers, HeaderPair, hdrs_sorted, spec_insert, lemma_insert_commutes,
};
use crate::request::{Request, ReqModel, bytes_eq};
use crate::response::{Response, RespModel};
use crate::store::copy_bytes;

verus! {

/// How strictly requests are matched against registered stubs.  The URL
/// always takes part; the strictness selects which of method, body and
/// headers do as well.
#[derive(Clone, Debug, Eq, PartialEq)]
pub enum StubStrictness {
    /// Full equality in all fields between stub and actual request.
    Full,
    /// `body`, `method` and `url` have to be equal.
    BodyMethodUrl,
    /// `headers`, `method` and `url` have to be equal.
    HeadersMethodUrl,
    /// `method` and `url` have to be equal.
    MethodUrl,
    /// `url` has to be equal.
    Url,
}

/// The default action when no stub matches a request.
#[derive(Clone, Debug, Eq, PartialEq)]
pub enum StubDefault {
    /// Perform the request against the live transport.
    PerformRequest,
    /// Abort the process: reserved for misconfiguration, not a recoverable
    /// path.
    Panic,
    /// Return a failure naming the unmatched URL.
    Error,
}

/// The settings of a stub client.
#[derive(Clone, Debug, Eq, PartialEq)]
pub struct StubSettings {
    /// The action taken when no stub is found for a request.
    pub default: StubDefault,
    /// How strictly requests are matched to stubs.
    pub strictness: StubStrictness,
}

impl Default for StubSettings {
    /// Fail on unmatched requests and require full equality.
    fn default() -> (r: Self)
        ensures
            r.default == StubDefault::Error,
            r.strictness == StubStrictness::Full,
    {
        StubSettings { default: StubDefault::Error, strictness: StubStrictness::Full }
    }
}

/// The declarative table behind the strictness: which fields a stub key must
/// carry.  The URL is always required and is not listed.
pub open spec fn requires_method(s: StubStrictness) -> bool {
    !(s is Url)
}

pub open spec fn requires_body(s: StubStrictness) -> bool {
    s is Full || s is BodyMethodUrl
}

pub open spec fn requires_headers(s: StubStrictness) -> bool {
    s is Full || s is HeadersMethodUrl
}

/// A field the strictness covers must be set, and a field it does not cover
/// must be unset.
pub open spec fn spec_key_fits(s: StubStrictness, k: StubKeyModel) -> bool {
    &&& (k.method is Some) == requires_method(s)
    &&& (k.body is Some) == requires_body(s)
    &&& (k.headers is Some) == requires_headers(s)
}

/// The first offending field of a key that does not fit the strictness, in
/// the order method, body, headers, and whether it is missing (as opposed to
/// not applicable).
pub open spec fn spec_register_error(s: StubStrictness, k: StubKeyModel) -> (Seq<char>, bool) {
    if (k.method is Some) != requires_method(s) {
        ("method"@, requires_method(s))
    } else if (k.body is Some) != requires_body(s) {
        ("body"@, requires_body(s))
    } else {
        ("headers"@, requires_headers(s))
    }
}

/// Names a stub pattern field and the strictness that made it offending.
#[derive(Clone, Debug, Eq, PartialEq)]
pub struct FieldError {
    /// The name of the offending field.
    pub field_name: &'static str,
    /// The strictness level that implied the requirement.
    pub strictness: &'static str,
}

/// Why registering a stub was refused.
#[derive(Clone, Debug, Eq, PartialEq)]
pub enum RegisterStubError {
    /// A field the strictness requires was not set.
    MissingField(FieldError),
    /// A field was set although the strictness does not check it.
    UnescessaryField(FieldError),
}

/// The mathematical content of a stub key.
pub ghost struct StubKeyModel {
    pub url: Seq<char>,
    pub method: Option<Seq<char>>,
    pub body: Option<Seq<u8>>,
    pub headers: Option<Seq<HeaderPair>>,
}

/// A request pattern: the fields the active strictness selects.
#[derive(Debug, Eq, PartialEq)]
pub struct StubKey {
    /// The URL; always part of the key.
    pub url: String,
    /// The method, where the strictness covers it.
    pub method: Option<String>,
    /// The body bytes, where the strictness covers them.  A request without
    /// a body keeps `None` here even when bodies are checked.
    pub body: Option<Vec<u8>>,
    /// The headers, where the strictness covers them.
    pub headers: Option<Headers>,
}

impl View for StubKey {
    type V = StubKeyModel;

    open spec fn view(&self) -> StubKeyModel {
        StubKeyModel {
            url: self.url@,
            method: match self.method {
                Option::Some(m) => Option::Some(m@),
                Option::None => Option::None,
            },
            body: match self.body {
                Option::Some(b) => Option::Some(b@),
                Option::None => Option::None,
            },
            headers: match self.headers {
                Option::Some(h) => Option::Some(h@),
                Option::None => Option::None,
            },
        }
    }
}

/// The key a request yields under a strictness: exactly the selected fields.
pub open spec fn spec_stub_key(s: StubStrictness, r: ReqModel) -> StubKeyModel {
    StubKeyModel {
        url: r.url,
        method: if requires_method(s) {
            Option::Some(r.method)
        } else {
            Option::None
        },
        body: if requires_body(s) {
            r.body
        } else {
            Option::None
        },
        headers: if requires_headers(s) {
            Option::Some(r.headers)
        } else {
            Option::None
        },
    }
}

/// The response a registered stub answers with.
#[derive(Debug, Eq, PartialEq)]
pub struct StubResponse {
    /// The status code of the canned response.
    pub status: u16,
    /// The body of the canned response; `None` stands for an empty body.
    pub body: Option<Vec<u8>>,
    /// The headers of the canned response.
    pub headers: Headers,
}

/// The mathematical content of a stub table, in registration order.
pub type StubTableModel = Seq<(StubKeyModel, RespModel)>;

/// The content of an owned stub table.
pub open spec fn stub_pairs_view(v: Seq<(StubKey, Response)>) -> StubTableModel {
    Seq::new(v.len(), |i: int| (v[i].0@, v[i].1@))
}

/// The response registered under a key, scanning in order; keys are unique,
/// so at most one entry matches.
pub open spec fn spec_find(stubs: StubTableModel, k: StubKeyModel) -> Option<RespModel>
    decreases stubs.len(),
{
    if stubs.len() == 0 {
        Option::None
    } else if stubs[0].0 == k {
        Option::Some(stubs[0].1)
    } else {
        spec_find(stubs.skip(1), k)
    }
}

/// Registration: an entry with the same key is replaced, a new key is
/// appended.
pub open spec fn spec_stub_insert(
    stubs: StubTableModel,
    k: StubKeyModel,
    v: RespModel,
) -> StubTableModel
    decreases stubs.len(),
{
    if stubs.len() == 0 {
        seq![(k, v)]
    } else if stubs[0].0 == k {
        seq![(k, v)] + stubs.skip(1)
    } else {
        seq![stubs[0]] + spec_stub_insert(stubs.skip(1), k, v)
    }
}

/// What a lookup asks the caller to do.
#[derive(Debug, Clone, PartialEq, Eq)]
pub enum StubOutcome {
    /// A registered stub matched: return this response verbatim.
    Reply(Response),
    /// No stub matched and the default is `PerformRequest`: the caller
    /// performs the request against the live transport.
    LiveRequired,
    /// No stub matched and the default is `Panic`: the caller aborts the
    /// process.
    Abort,
}

/// A client which answers requests from explicitly registered stubs.
pub struct StubClient {
    /// The configuration handed to the live transport on `PerformRequest`.
    pub config: ClientConfig,
    /// The registered stubs, in registration order.
    pub stubs: Vec<(StubKey, Response)>,
    /// The default action and the match strictness.
    pub settings: StubSettings,
}

impl View for StubClient {
    type V = StubTableModel;

    open spec fn view(&self) -> StubTableModel {
        stub_pairs_view(self.stubs@)
    }
}

/// Whether two patterns are the same key.
fn key_eq(a: &StubKey, b: &StubKey) -> (r: bool)
    ensures
        r == (a@ == b@),
{
    if !(a.url == b.url) {
        return false;
    }
    let method_ok = match (&a.method, &b.method) {
        (None, None) => true,
        (Some(x), Some(y)) => *x == *y,
        _ => false,
    };
    if !method_ok {
        return false;
    }
    let body_ok = match (&a.body, &b.body) {
        (None, None) => true,
        (Some(x), Some(y)) => bytes_eq(x, y),
        _ => false,
    };
    if !body_ok {
        return false;
    }
    match (&a.headers, &b.headers) {
        (None, None) => true,
        (Some(x), Some(y)) => x.same_entries(y),
        _ => false,
    }
}

/// `spec_find` after `i` mismatches looks only at the rest.
proof fn lemma_spec_find_at(stubs: StubTableModel, k: StubKeyModel, i: int)
    requires
        0 <= i <= stubs.len(),
        forall|j: int| 0 <= j < i ==> (#[trigger] stubs[j].0) != k,
    ensures
        i == stubs.len() ==> spec_find(stubs, k) is None,
        i < stubs.len() && stubs[i].0 == k ==> spec_find(stubs, k) == Some(stubs[i].1),
    decreases i,
{
    if i == 0 {
        if stubs.len() > 0 && stubs[0].0 == k {
        }
    } else {
        let t = stubs.skip(1);
        assert forall|j: int| 0 <= j < i - 1 implies (#[trigger] t[j].0) != k by {
            assert(t[j] == stubs[j + 1]);
        }
        if i - 1 < t.len() {
            assert(t[i - 1] == stubs[i]);
        }
        lemma_spec_find_at(t, k, i - 1);
        assert(stubs[0].0 != k);
    }
}

/// Where a registration lands: after `i` mismatches it either replaces the
/// matching entry at `i` or, at the end, appends.
proof fn lemma_spec_stub_insert_at(
    stubs: StubTableModel,
    k: StubKeyModel,
    v: RespModel,
    i: int,
)
    requires
        0 <= i <= stubs.len(),
        forall|j: int| 0 <= j < i ==> (#[trigger] stubs[j].0) != k,
    ensures
        i == stubs.len() ==> spec_stub_insert(stubs, k, v) == stubs + seq![(k, v)],
        i < stubs.len() && stubs[i].0 == k ==> spec_stub_insert(stubs, k, v) == stubs.take(i)
            + seq![(k, v)] + stubs.skip(i + 1),
    decreases i,
{
    if i == 0 {
        if stubs.len() == 0 {
            assert(spec_stub_insert(stubs, k, v) =~= stubs + seq![(k, v)]);
        } else if stubs[0].0 == k {
            assert(spec_stub_insert(stubs, k, v) =~= stubs.take(0) + seq![(k, v)] + stubs.skip(1));
        }
    } else {
        let t = stubs.skip(1);
        assert forall|j: int| 0 <= j < i - 1 implies (#[trigger] t[j].0) != k by {
            assert(t[j] == stubs[j + 1]);
        }
        if i - 1 < t.len() {
            assert(t[i - 1] == stubs[i]);
        }
        lemma_spec_stub_insert_at(t, k, v, i - 1);
        assert(stubs[0].0 != k);
        assert(spec_stub_insert(stubs, k, v) == seq![stubs[0]] + spec_stub_insert(t, k, v));
        if i == stubs.len() {
            assert(seq![stubs[0]] + (t + seq![(k, v)]) =~= stubs + seq![(k, v)]);
        } else if stubs[i].0 == k {
            assert(t.skip(i) =~= stubs.skip(i + 1));
            assert(seq![stubs[0]] + (t.take(i - 1) + seq![(k, v)] + t.skip(i)) =~= stubs.take(i)
                + seq![(k, v)] + stubs.skip(i + 1));
        }
    }
}

impl StubClient {
    /// The registered keys are unique: one response per key.
    pub open spec fn wf(&self) -> bool {
        forall|i: int, j: int|
            0 <= i < j < self@.len() ==> (#[trigger] self@[i].0) != (#[trigger] self@[j].0)
    }

    /// A client with no stubs and the given settings.
    pub fn new(stub_settings: StubSettings) -> (r: Self)
        ensures
            r.config == ClientConfig::spec_default(),
            r.settings == stub_settings,
            r@ == Seq::<(StubKeyModel, RespModel)>::empty(),
            r.wf(),
    {
        let r = StubClient {
            config: ClientConfig::new(),
            stubs: Vec::new(),
            settings: stub_settings,
        };
        proof {
            assert(r@ =~= Seq::<(StubKeyModel, RespModel)>::empty());
        }
        r
    }

    /// The client's own configuration.
    pub fn config(&self) -> (r: &ClientConfig)
        ensures
            r == self.config,
    {
        &self.config
    }

    /// The key the active strictness derives from a request.
    fn stub_key(&self, request: &Request) -> (r: StubKey)
        ensures
            r@ == spec_stub_key(self.settings.strictness, request@),
    {
        let url = request.url.clone();
        let method = match self.settings.strictness {
            StubStrictness::Url => None,
            _ => Some(request.method.clone()),
        };
        let body = match self.settings.strictness {
            StubStrictness::Full | StubStrictness::BodyMethodUrl => match &request.body {
                Some(b) => Some(copy_bytes(b)),
                None => None,
            },
            _ => None,
        };
        let headers = match self.settings.strictness {
            StubStrictness::Full | StubStrictness::HeadersMethodUrl => Some(
                request.headers.clone(),
            ),
            _ => None,
        };
        StubKey { url, method, body, headers }
    }

    /// Register a canned response under a pattern.  The pattern must carry
    /// exactly the fields the active strictness checks: a missing required
    /// field or a field the strictness does not cover fails the
    /// registration, and the table is unchanged.  A pattern equal to an
    /// already registered one replaces its response.
    pub fn register_stub(&mut self, key: StubKey, value: StubResponse) -> (r: Result<
        (),
        RegisterStubError,
    >)
        requires
            old(self).wf(),
        ensures
            final(self).config == old(self).config,
            final(self).settings == old(self).settings,
            final(self).wf(),
            r is Ok <==> spec_key_fits(old(self).settings.strictness, key@),
            ({
                let resp = RespModel {
                    url: key@.url,
                    status: value.status,
                    headers: value.headers@,
                    body: match value.body {
                        Option::Some(b) => b@,
                        Option::None => Seq::<u8>::empty(),
                    },
                };
                match r {
                    Ok(()) => final(self)@ == spec_stub_insert(old(self)@, key@, resp),
                    Err(e) => final(self)@ == old(self)@ && ({
                        let (name, missing) = spec_register_error(
                            old(self).settings.strictness,
                            key@,
                        );
                        match e {
                            RegisterStubError::MissingField(f) => missing && f.field_name@ == name,
                            RegisterStubError::UnescessaryField(f) => !missing && f.field_name@
                                == name,
                        }
                    }),
                }
            }),
    {
        let label = strictness_label(&self.settings.strictness);
        let method_required = match self.settings.strictness {
            StubStrictness::Url => false,
            _ => true,
        };
        if method_required != key.method.is_some() {
            if method_required {
                return Err(
                    RegisterStubError::MissingField(
                        FieldError { field_name: "method", strictness: label },
                    ),
                );
            } else {
                return Err(
                    RegisterStubError::UnescessaryField(
                        FieldError { field_name: "method", strictness: label },
                    ),
                );
            }
        }
        let body_required = match self.settings.strictness {
            StubStrictness::Full | StubStrictness::BodyMethodUrl => true,
            _ => false,
        };
        if body_required != key.body.is_some() {
            if body_required {
                return Err(
                    RegisterStubError::MissingField(
                        FieldError { field_name: "body", strictness: label },
                    ),
                );
            } else {
                return Err(
                    RegisterStubError::UnescessaryField(
                        FieldError { field_name: "body", strictness: label },
                    ),
                );
            }
        }
        let headers_required = match self.settings.strictness {
            StubStrictness::Full | StubStrictness::HeadersMethodUrl => true,
            _ => false,
        };
        if headers_required != key.headers.is_some() {
            if headers_required {
                return Err(
                    RegisterStubError::MissingField(
                        FieldError { field_name: "headers", strictness: label },
                    ),
                );
            } else {
                return Err(
                    RegisterStubError::UnescessaryField(
                        FieldError { field_name: "headers", strictness: label },
                    ),
                );
            }
        }
        let response = Response {
            url: key.url.clone(),
            status: value.status,
            headers: value.headers,
            body: match value.body {
                Some(b) => b,
                None => Vec::new(),
            },
        };
        let ghost stubs0 = self@;
        let ghost km = key@;
        let ghost rm = response@;
        let n = self.stubs.len();
        let mut i: usize = 0;
        let mut replace = false;
        loop
            invariant_except_break
                !replace,
            invariant
                *self == *old(self),
                self@ == stubs0,
                i <= n,
                n == self.stubs@.len(),
                km == key@,
                forall|j: int| 0 <= j < i ==> (#[trigger] stubs0[j].0) != km,
            ensures
                *self == *old(self),
                self@ == stubs0,
                i <= n,
                n == self.stubs@.len(),
                forall|j: int| 0 <= j < i ==> (#[trigger] stubs0[j].0) != km,
                replace ==> i < n && stubs0[i as int].0 == km,
                !replace ==> i == n,
            decreases n - i,
        {
            if i >= n {
                break ;
            }
            proof {
                assert(stubs0[i as int].0 == self.stubs@[i as int].0@);
            }
            if key_eq(&self.stubs[i].0, &key) {
                replace = true;
                break ;
            }
            i = i + 1;
        }
        proof {
            lemma_spec_stub_insert_at(stubs0, km, rm, i as int);
        }
        if replace {
            self.stubs.remove(i);
            self.stubs.insert(i, (key, response));
            proof {
                assert(self@ =~= stubs0.take(i as int) + seq![(km, rm)] + stubs0.skip(i as int + 1));
                assert forall|a: int, b: int| 0 <= a < b < self@.len() implies (
                #[trigger] self@[a].0) != (#[trigger] self@[b].0) by {
                    assert(stubs0[a].0 != stubs0[b].0);
                    if a != i {
                        assert(self@[a] == stubs0[a]);
                    }
                    if b != i {
                        assert(self@[b] == stubs0[b]);
                    }
                }
            }
        } else {
            self.stubs.push((key, response));
            proof {
                assert(self@ =~= stubs0 + seq![(km, rm)]);
                assert forall|a: int, b: int| 0 <= a < b < self@.len() implies (
                #[trigger] self@[a].0) != (#[trigger] self@[b].0) by {
                    if b == self@.len() - 1 {
                        assert(self@[a] == stubs0[a]);
                        assert(stubs0[a].0 != km);
                    } else {
                        assert(self@[a] == stubs0[a]);
                        assert(self@[b] == stubs0[b]);
                    }
                }
            }
        }
        Ok(())
    }

    /// The registered response for a request, if one matches under the
    /// active strictness.
    pub fn find_stub(&self, request: &Request) -> (r: Option<Response>)
        ensures
            match r {
                Some(resp) => spec_find(
                    self@,
                    spec_stub_key(self.settings.strictness, request@),
                ) == Some(resp@),
                None => spec_find(self@, spec_stub_key(self.settings.strictness, request@))
                    is None,
            },
    {
        let key = self.stub_key(request);
        let n = self.stubs.len();
        let mut i: usize = 0;
        while i < n
            invariant
                i <= n,
                n == self.stubs@.len(),
                key@ == spec_stub_key(self.settings.strictness, request@),
                forall|j: int| 0 <= j < i ==> (#[trigger] self@[j].0) != key@,
            decreases n - i,
        {
            proof {
                assert(self@[i as int] == (self.stubs@[i as int].0@, self.stubs@[i as int].1@));
            }
            if key_eq(&self.stubs[i].0, &key) {
                proof {
                    lemma_spec_find_at(self@, key@, i as int);
                }
                return Some(self.stubs[i].1.clone());
            }
            i = i + 1;
        }
        proof {
            lemma_spec_find_at(self@, key@, n as int);
        }
        None
    }

    /// Answer a request from the stub table.  On a hit the registered
    /// response is returned verbatim.  On a miss the configured default
    /// decides: `PerformRequest` asks the caller for a live call,
    /// `Panic` asks the caller to abort, and `Error` fails, naming the
    /// unmatched URL.
    pub fn execute(&self, request: &Request) -> (r: Result<StubOutcome, Error>)
        ensures
            ({
                let key = spec_stub_key(self.settings.strictness, request@);
                match spec_find(self@, key) {
                    Option::Some(resp) => r matches Ok(StubOutcome::Reply(rr)) && rr@ == resp,
                    Option::None => match self.settings.default {
                        StubDefault::PerformRequest => r == Ok::<StubOutcome, Error>(
                            StubOutcome::LiveRequired,
                        ),
                        StubDefault::Panic => r == Ok::<StubOutcome, Error>(StubOutcome::Abort),
                        StubDefault::Error => r matches Err(e) && e matches Error::UnmatchedStub(u)
                            && u@ == request@.url,
                    },
                }
            }),
    {
        match self.find_stub(request) {
            Some(resp) => Ok(StubOutcome::Reply(resp)),
            None => match self.settings.default {
                StubDefault::PerformRequest => Ok(StubOutcome::LiveRequired),
                StubDefault::Panic => Ok(StubOutcome::Abort),
                StubDefault::Error => Err(Error::UnmatchedStub(request.url.clone())),
            },
        }
    }
}

/// The display label of a strictness level.
fn strictness_label(s: &StubStrictness) -> (r: &'static str)
    ensures
        r@ == match s {
            StubStrictness::Full => "Full"@,
            StubStrictness::BodyMethodUrl => "BodyMethodUrl"@,
            StubStrictness::HeadersMethodUrl => "HeadersMethodUrl"@,
            StubStrictness::MethodUrl => "MethodUrl"@,
            StubStrictness::Url => "Url"@,
        },
{
    match s {
        StubStrictness::Full => "Full",
        StubStrictness::BodyMethodUrl => "BodyMethodUrl",
        StubStrictness::HeadersMethodUrl => "HeadersMethodUrl",
        StubStrictness::MethodUrl => "MethodUrl",
        StubStrictness::Url => "Url",
    }
}

/// Under a strictness that checks bodies, requests with different bodies
/// have different stub keys, so a stub registered for one of them does not
/// answer the other.
pub proof fn lemma_body_distinguishes_keys(s: StubStrictness, r1: ReqModel, r2: ReqModel)
    requires
        requires_body(s),
        r1.body != r2.body,
    ensures
        spec_stub_key(s, r1) != spec_stub_key(s, r2),
{
}

/// Header insertion order is irrelevant: two requests that insert the same
/// two distinct headers in either order into the same canonical map have the
/// same fingerprint and, under every strictness, the same stub key.
pub proof fn lemma_insertion_order_irrelevant(
    url: Seq<char>,
    method: Seq<char>,
    body: Option<Seq<u8>>,
    base: Seq<HeaderPair>,
    n1: Seq<char>,
    v1: Seq<char>,
    n2: Seq<char>,
    v2: Seq<char>,
)
    requires
        hdrs_sorted(base),
        n1 != n2,
    ensures
        ({
            let ra = ReqModel {
                url,
                method,
                headers: spec_insert(spec_insert(base, n1, v1), n2, v2),
                body,
            };
            let rb = ReqModel {
                url,
                method,
                headers: spec_insert(spec_insert(base, n2, v2), n1, v1),
                body,
            };
            spec_fingerprint(ra) == spec_fingerprint(rb) && (forall|s: StubStrictness|
                spec_stub_key(s, ra) == spec_stub_key(s, rb))
        }),
{
    lemma_insert_commutes(base, n1, v1, n2, v2);
}

} // verus!
