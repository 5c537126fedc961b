//! The replay/record engine.
//!
//! A [`ReplayClient`] answers a request from its recording target when a
//! matching interaction was recorded before, and otherwise asks its caller
//! to perform one live call and records the outcome.  The decisions are all
//! here; reading and writing the actual files, and the live call itself, are
//! the caller's part: [`ReplayClient::begin`] says what to do for a request,
//! and [`ReplayClient::record`] persists a live outcome.

use vstd::prelude::*;
use vstd::string::StringExecFns;
use crate::codec::{
    DocModel, DocOutcome, FORMAT_VERSION, doc_of_entry, spec_decode_doc, spec_enc_doc, base64_of,
    decode_doc, DecodeOutcome, doc_to_entry, encode_entry, StoredEntry, StoredRespModel,
};
use crate::config::ClientConfig;
use crate::error::Error;
use crate::fingerprint::{
    spec_fingerprint, fingerprint, hex_of, u64_to_hex, lemma_hex_of_injective,
};
use crate::request::{Request, ReqModel};
use crate::response::{Response, RespModel};
use crate::store::Store;

verus! {

/// The recording target.
#[derive(Clone, Debug, PartialEq, Eq)]
pub enum RecordingTarget {
    /// A single file holds exactly one interaction; a differing request
    /// overwrites it.
    File(String),
    /// A directory in which every distinct request gets its own replay
    /// file, named by the request's fingerprint.
    Dir(String),
}

impl RecordingTarget {
    /// Shorthand for `RecordingTarget::File`.
    pub fn file(file: String) -> (r: Self)
        ensures
            r == RecordingTarget::File(file),
    {
        RecordingTarget::File(file)
    }

    /// Shorthand for `RecordingTarget::Dir`.
    pub fn dir(dir: String) -> (r: Self)
        ensures
            r == RecordingTarget::Dir(dir),
    {
        RecordingTarget::Dir(dir)
    }
}

/// The record mode: whether new interactions may be captured.
#[derive(Clone, Copy, Debug, PartialEq, Eq)]
pub enum RecordMode {
    /// Record new interactions, replay previously recorded ones.
    NewEpisodes,
    /// Fail on new interactions, replay previously recorded ones.
    OnlyReplay,
}

impl Default for RecordMode {
    fn default() -> (r: Self)
        ensures
            r == RecordMode::NewEpisodes,
    {
        RecordMode::NewEpisodes
    }
}

/// Builds a replay client.
pub struct Builder {
    /// The recording target, once one was chosen.
    pub target: Option<RecordingTarget>,
    /// The record mode the client will be built with.
    pub record_mode: RecordMode,
}

/// Records responses to requests and replays them while the request is
/// unchanged.
///
/// The one-shot force flag is read and cleared under an exclusive borrow,
/// so two callers can never both consume it; sharing one client across
/// threads takes an external lock.
///
/// The fields are plain and visible: target and mode are meant to be fixed
/// at construction, and every method here preserves that together with the
/// `wf` invariant on the flag; code that writes the fields directly takes
/// over that obligation.
pub struct ReplayClient {
    /// The configuration handed to the live transport.
    pub config: ClientConfig,
    /// Where recordings are kept.
    pub target: RecordingTarget,
    /// Whether new interactions may be captured.
    pub record_mode: RecordMode,
    /// The one-shot flag: the next lookup is treated as a miss, then the
    /// flag is cleared.
    pub force_record_next: bool,
}

impl Builder {
    /// A builder with no target and the default record mode.
    pub fn new() -> (r: Self)
        ensures
            r.target is None,
            r.record_mode == RecordMode::NewEpisodes,
    {
        Builder { target: None, record_mode: RecordMode::NewEpisodes }
    }

    /// Specify the recording target.
    pub fn target(self, target: RecordingTarget) -> (r: Self)
        ensures
            r.target == Some(target),
            r.record_mode == self.record_mode,
    {
        Builder { target: Some(target), record_mode: self.record_mode }
    }

    /// Record into the given single file.
    pub fn target_file(self, file: String) -> (r: Self)
        ensures
            r.target == Some(RecordingTarget::File(file)),
            r.record_mode == self.record_mode,
    {
        self.target(RecordingTarget::File(file))
    }

    /// Record into the given directory, one file per distinct request.
    pub fn target_directory(self, dir: String) -> (r: Self)
        ensures
            r.target == Some(RecordingTarget::Dir(dir)),
            r.record_mode == self.record_mode,
    {
        self.target(RecordingTarget::Dir(dir))
    }

    /// Specify the record mode.
    pub fn record_mode(self, record_mode: RecordMode) -> (r: Self)
        ensures
            r.record_mode == record_mode,
            r.target == self.target,
    {
        Builder { target: self.target, record_mode }
    }

    /// Build the client; fails exactly when no target was specified.
    pub fn build(self) -> (r: Result<ReplayClient, Error>)
        ensures
            match self.target {
                Some(t) => r matches Ok(c) && c.target == t && c.record_mode == self.record_mode
                    && c.config == ClientConfig::spec_default() && c.force_record_next == false,
                None => r matches Err(e) && e is Msg,
            },
    {
        match self.target {
            Some(t) => Ok(ReplayClient::new(t, self.record_mode)),
            None => Err(Error::Msg(String::from_str("Recording target not specified."))),
        }
    }
}

/// What the engine asks of its caller for one request.
#[derive(Debug, Clone, PartialEq, Eq)]
pub enum Attempt {
    /// A recorded response answers the request: return it; no live call and
    /// no write happen.
    Replayed(Response),
    /// No usable recording: perform one live call, then hand the outcome to
    /// [`ReplayClient::record`].
    NeedsLive,
}

/// What a lookup finds, at the mathematical level.
pub ghost enum AttemptModel {
    /// A current-version document whose request equals the submitted one:
    /// its stored response is replayed.
    Hit(StoredRespModel),
    /// A plain miss under `NewEpisodes`: a live call is needed.
    NeedsLive,
    /// A miss under `OnlyReplay`: the call fails, no live call is made.
    PolicyViolation,
    /// Stored bytes this library cannot have written: a serialization error.
    DecodeFailed,
}

/// A miss either asks for a live call or, under `OnlyReplay`, fails.
pub open spec fn spec_miss(mode: RecordMode) -> AttemptModel {
    if mode is OnlyReplay {
        AttemptModel::PolicyViolation
    } else {
        AttemptModel::NeedsLive
    }
}

/// The engine's lookup decision: the one-shot force flag makes any lookup a
/// miss; otherwise the stored document, if any, is read, a foreign version
/// is a miss, and a current document replays exactly when its stored request
/// equals the submitted one.
pub open spec fn spec_attempt(
    mode: RecordMode,
    force: bool,
    stored: Option<Seq<u8>>,
    req: ReqModel,
) -> AttemptModel {
    if force {
        spec_miss(mode)
    } else {
        match stored {
            Option::None => spec_miss(mode),
            Option::Some(bytes) => match spec_decode_doc(bytes) {
                DocOutcome::Malformed => AttemptModel::DecodeFailed,
                DocOutcome::VersionMismatch => spec_miss(mode),
                DocOutcome::Valid(d) => if d.request == req {
                    AttemptModel::Hit(d.response)
                } else {
                    spec_miss(mode)
                },
            },
        }
    }
}

/// The `.json` suffix of directory-mode file names.
pub open spec fn json_suffix() -> Seq<char> {
    seq!['.', 'j', 's', 'o', 'n']
}

/// The file a fingerprint is stored under inside a directory target.
pub open spec fn spec_dir_path(dir: Seq<char>, fp: u64) -> Seq<char> {
    dir + seq!['/'] + hex_of(fp as int) + json_suffix()
}

/// The storage path for a request under a target.
pub open spec fn spec_path(target: RecordingTarget, req: ReqModel) -> Seq<char> {
    match target {
        RecordingTarget::File(f) => f@,
        RecordingTarget::Dir(d) => spec_dir_path(d@, spec_fingerprint(req)),
    }
}

impl ReplayClient {
    /// The force flag can only be set while new recordings are allowed.
    pub open spec fn wf(&self) -> bool {
        self.record_mode is OnlyReplay ==> !self.force_record_next
    }

    /// A client reading and writing recordings at the given target.
    pub fn new(target: RecordingTarget, record_mode: RecordMode) -> (r: Self)
        ensures
            r.target == target,
            r.record_mode == record_mode,
            r.config == ClientConfig::spec_default(),
            r.force_record_next == false,
            r.wf(),
    {
        ReplayClient {
            config: ClientConfig::new(),
            target,
            record_mode,
            force_record_next: false,
        }
    }

    /// A builder for a replay client.
    pub fn builder() -> (r: Builder)
        ensures
            r.target is None,
            r.record_mode == RecordMode::NewEpisodes,
    {
        Builder::new()
    }

    /// The client's own configuration.
    pub fn config(&self) -> (r: &ClientConfig)
        ensures
            r == self.config,
    {
        &self.config
    }

    /// Replace the client's configuration.
    pub fn set_config(&mut self, config: ClientConfig)
        ensures
            final(self).config == config,
            final(self).target == old(self).target,
            final(self).record_mode == old(self).record_mode,
            final(self).force_record_next == old(self).force_record_next,
    {
        self.config = config;
    }

    /// Ensure that the next request is recorded again, even if the exact
    /// same request was already recorded.  Asking this of a replay-only
    /// client contradicts its mode and is excluded.
    pub fn force_record_next(&mut self)
        requires
            old(self).record_mode is NewEpisodes,
        ensures
            final(self).force_record_next == true,
            final(self).config == old(self).config,
            final(self).target == old(self).target,
            final(self).record_mode == old(self).record_mode,
            final(self).wf(),
    {
        self.force_record_next = true;
    }

    /// The path the given request is recorded under.
    pub fn replay_file_path(&self, request: &Request) -> (r: String)
        ensures
            r@ == spec_path(self.target, request@),
    {
        match &self.target {
            RecordingTarget::File(f) => f.clone(),
            RecordingTarget::Dir(d) => {
                let mut p = d.clone();
                p.append("/");
                let h = u64_to_hex(fingerprint(request));
                p.append(h.as_str());
                p.append(".json");
                proof {
                    reveal_strlit("/");
                    reveal_strlit(".json");
                    assert("/"@ =~= seq!['/']);
                    assert(".json"@ =~= json_suffix());
                    assert(p@ =~= spec_dir_path(d@, spec_fingerprint(request@)));
                }
                p
            },
        }
    }

    /// Read and clear the one-shot force flag.
    fn take_force_record(&mut self) -> (r: bool)
        ensures
            r == old(self).force_record_next,
            final(self).force_record_next == false,
            final(self).config == old(self).config,
            final(self).target == old(self).target,
            final(self).record_mode == old(self).record_mode,
    {
        let f = self.force_record_next;
        self.force_record_next = false;
        f
    }

    /// A miss: ask for a live call, or fail under `OnlyReplay`.
    fn miss_result(&self) -> (r: Result<Attempt, Error>)
        ensures
            match spec_miss(self.record_mode) {
                AttemptModel::NeedsLive => r == Ok::<Attempt, Error>(Attempt::NeedsLive),
                AttemptModel::PolicyViolation => r == Err::<Attempt, Error>(
                    Error::ReplayPolicyViolation,
                ),
                _ => false,
            },
    {
        match self.record_mode {
            RecordMode::NewEpisodes => Ok(Attempt::NeedsLive),
            RecordMode::OnlyReplay => Err(Error::ReplayPolicyViolation),
        }
    }

    /// Decide a request against the stored bytes, if any, consuming the
    /// one-shot force flag.  Callers that keep recordings in real files read
    /// the file at [`Self::replay_file_path`] and hand its bytes here.
    #[verifier::rlimit(100)]
    pub fn evaluate(&mut self, stored: Option<Vec<u8>>, request: &Request) -> (r: Result<
        Attempt,
        Error,
    >)
        ensures
            final(self).force_record_next == false,
            final(self).config == old(self).config,
            final(self).target == old(self).target,
            final(self).record_mode == old(self).record_mode,
            final(self).wf(),
            ({
                let out = spec_attempt(
                    old(self).record_mode,
                    old(self).force_record_next,
                    match stored {
                        Option::Some(b) => Option::Some(b@),
                        Option::None => Option::None,
                    },
                    request@,
                );
                match out {
                    AttemptModel::Hit(m) => {
                        &&& (r matches Ok(a) ==> a matches Attempt::Replayed(resp) && resp@.url
                            == m.url && resp@.status == m.status && resp@.headers == m.headers && (
                        forall|bs: Seq<u8>| m.body_b64 == #[trigger] base64_of(bs) ==> resp@.body
                            == bs))
                        &&& (r matches Err(e) ==> e == Error::Serialization)
                        &&& ((exists|bs: Seq<u8>| m.body_b64 == #[trigger] base64_of(bs))
                            ==> r is Ok)
                    },
                    AttemptModel::NeedsLive => r == Ok::<Attempt, Error>(Attempt::NeedsLive),
                    AttemptModel::PolicyViolation => r == Err::<Attempt, Error>(
                        Error::ReplayPolicyViolation,
                    ),
                    AttemptModel::DecodeFailed => r == Err::<Attempt, Error>(Error::Serialization),
                }
            }),
    {
        let force = self.take_force_record();
        if force {
            return self.miss_result();
        }
        let bytes = match stored {
            None => {
                return self.miss_result();
            },
            Some(b) => b,
        };
        match decode_doc(&bytes) {
            DecodeOutcome::Malformed => Err(Error::Serialization),
            DecodeOutcome::VersionMismatch => self.miss_result(),
            DecodeOutcome::Valid(doc) => {
                if doc.request.matches(request) {
                    match doc_to_entry(doc) {
                        Some(e) => Ok(Attempt::Replayed(e.response)),
                        None => Err(Error::Serialization),
                    }
                } else {
                    self.miss_result()
                }
            },
        }
    }

    /// Look the request up in a store: the in-memory form of one `execute`
    /// step up to the point where either a recorded response answers it or
    /// one live call is needed.
    pub fn begin(&mut self, store: &Store, request: &Request) -> (r: Result<Attempt, Error>)
        requires
            store.wf(),
        ensures
            final(self).force_record_next == false,
            final(self).config == old(self).config,
            final(self).target == old(self).target,
            final(self).record_mode == old(self).record_mode,
            final(self).wf(),
            ({
                let path = spec_path(old(self).target, request@);
                let stored: Option<Seq<u8>> = if store@.dom().contains(path) {
                    Option::Some(store@[path])
                } else {
                    Option::None
                };
                let out = spec_attempt(
                    old(self).record_mode,
                    old(self).force_record_next,
                    stored,
                    request@,
                );
                match out {
                    AttemptModel::Hit(m) => {
                        &&& (r matches Ok(a) ==> a matches Attempt::Replayed(resp) && resp@.url
                            == m.url && resp@.status == m.status && resp@.headers == m.headers && (
                        forall|bs: Seq<u8>| m.body_b64 == #[trigger] base64_of(bs) ==> resp@.body
                            == bs))
                        &&& (r matches Err(e) ==> e == Error::Serialization)
                        &&& ((exists|bs: Seq<u8>| m.body_b64 == #[trigger] base64_of(bs))
                            ==> r is Ok)
                    },
                    AttemptModel::NeedsLive => r == Ok::<Attempt, Error>(Attempt::NeedsLive),
                    AttemptModel::PolicyViolation => r == Err::<Attempt, Error>(
                        Error::ReplayPolicyViolation,
                    ),
                    AttemptModel::DecodeFailed => r == Err::<Attempt, Error>(Error::Serialization),
                }
            }),
    {
        let path = self.replay_file_path(request);
        let stored = store.read(&path);
        self.evaluate(stored, request)
    }

    /// The document recording one live outcome, and the path it belongs at.
    /// Callers that keep recordings in real files write the bytes there; a
    /// write failure is fatal to the overall call, so the response is never
    /// returned without being durably recorded.
    pub fn record_document(&self, request: &Request, response: &Response) -> (r: (String, Vec<u8>))
        ensures
            r.0@ == spec_path(self.target, request@),
            r.1@ == spec_enc_doc(doc_of_entry(request@, response@, FORMAT_VERSION)),
    {
        let path = self.replay_file_path(request);
        let bytes = encode_entry(request, response, FORMAT_VERSION);
        (path, bytes)
    }

    /// Persist one live outcome in a store, at the request's path, with the
    /// current format version: the in-memory form of the write step.
    pub fn record(&self, store: &mut Store, request: &Request, response: &Response)
        requires
            old(store).wf(),
        ensures
            final(store).wf(),
            final(store)@ == old(store)@.insert(
                spec_path(self.target, request@),
                spec_enc_doc(doc_of_entry(request@, response@, FORMAT_VERSION)),
            ),
    {
        let (path, bytes) = self.record_document(request, response);
        store.write(path, bytes);
    }
}

// ---------------------------------------------------------------------------
// What the engine guarantees, spelled out.
// ---------------------------------------------------------------------------
/// Replaying what was recorded: a lookup of the same request against the
/// document recorded for it is a hit on the stored response, in either mode.
/// With the write step always storing `spec_enc_doc(doc_of_entry(..))` at the
/// request's path, executing the same request twice therefore replays the
/// first response and performs no second live call.
pub proof fn lemma_same_request_replays(d: DocModel, mode: RecordMode)
    requires
        d.version == FORMAT_VERSION,
    ensures
        spec_attempt(mode, false, Some(spec_enc_doc(d)), d.request) == AttemptModel::Hit(
            d.response,
        ),
{
    crate::codec::lemma_decode_encode_doc(d);
}

/// Recording then replaying, over the store itself: after `record` writes
/// the document for a request at the request's path, a lookup of the same
/// request in the written store is a hit on exactly the recorded response
/// (its body carried as the base64 text the bytes encode to).  One recording
/// therefore serves every later identical request: the live call happens
/// once.
pub proof fn lemma_record_then_replay(
    target: RecordingTarget,
    store: Map<Seq<char>, Seq<u8>>,
    req: ReqModel,
    resp: RespModel,
    mode: RecordMode,
)
    ensures
        ({
            let path = spec_path(target, req);
            let doc = doc_of_entry(req, resp, FORMAT_VERSION);
            let written = store.insert(path, spec_enc_doc(doc));
            written.dom().contains(path) && spec_attempt(mode, false, Some(written[path]), req)
                == AttemptModel::Hit(doc.response) && doc.response.body_b64 == base64_of(resp.body)
        }),
{
    lemma_same_request_replays(doc_of_entry(req, resp, FORMAT_VERSION), mode);
}

/// A document of another format version is never replayed: the lookup is an
/// ordinary miss, so under `NewEpisodes` a live call follows and the write
/// step rewrites the file with the current version.
pub proof fn lemma_stale_version_is_a_miss(d: DocModel, mode: RecordMode, req: ReqModel)
    requires
        d.version != FORMAT_VERSION,
    ensures
        spec_attempt(mode, false, Some(spec_enc_doc(d)), req) == spec_miss(mode),
        spec_attempt(RecordMode::NewEpisodes, false, Some(spec_enc_doc(d)), req)
            == AttemptModel::NeedsLive,
{
    crate::codec::lemma_decode_encode_doc(d);
}

/// `OnlyReplay` enforcement: a replay-only lookup never asks for a live
/// call, and on an absent document it fails with the policy violation.
pub proof fn lemma_only_replay_never_calls_live(
    force: bool,
    stored: Option<Seq<u8>>,
    req: ReqModel,
)
    ensures
        spec_attempt(RecordMode::OnlyReplay, force, stored, req) != AttemptModel::NeedsLive,
        stored is None ==> spec_attempt(RecordMode::OnlyReplay, force, stored, req)
            == AttemptModel::PolicyViolation,
{
}

/// Force-record: with the one-shot flag set, a lookup under `NewEpisodes`
/// asks for a live call even when a matching document is stored.  The flag
/// is consumed by the lookup — `evaluate` leaves it cleared — so together
/// with `lemma_same_request_replays` the call after that replays again.
pub proof fn lemma_force_record_forces_live(stored: Option<Seq<u8>>, req: ReqModel)
    ensures
        spec_attempt(RecordMode::NewEpisodes, true, stored, req) == AttemptModel::NeedsLive,
{
}

/// Distinct fingerprints use distinct files in a directory target.
pub proof fn lemma_dir_path_injective(dir: Seq<char>, f1: u64, f2: u64)
    requires
        f1 != f2,
    ensures
        spec_dir_path(dir, f1) != spec_dir_path(dir, f2),
{
    let h1 = hex_of(f1 as int);
    let h2 = hex_of(f2 as int);
    let p1 = spec_dir_path(dir, f1);
    let p2 = spec_dir_path(dir, f2);
    if p1 == p2 {
        assert(p1.len() == dir.len() + 1 + h1.len() + 5);
        assert(p2.len() == dir.len() + 1 + h2.len() + 5);
        assert(h1.len() == h2.len());
        assert(h1 =~= p1.subrange(dir.len() as int + 1, dir.len() as int + 1 + h1.len() as int)) by {
            assert forall|i: int| 0 <= i < h1.len() implies h1[i] == p1[dir.len() + 1 + i] by {}
        }
        assert(h2 =~= p2.subrange(dir.len() as int + 1, dir.len() as int + 1 + h2.len() as int)) by {
            assert forall|i: int| 0 <= i < h2.len() implies h2[i] == p2[dir.len() + 1 + i] by {}
        }
        lemma_hex_of_injective(f1 as int, f2 as int);
        assert(false);
    }
}

/// Directory isolation: two requests with distinct fingerprints live in two
/// separate files of the directory, so recording one leaves the document of
/// the other untouched and still replaying its own response.
pub proof fn lemma_directory_isolation(
    dir: Seq<char>,
    d1: DocModel,
    r2: ReqModel,
    store: Map<Seq<char>, Seq<u8>>,
    b2: Seq<u8>,
    mode: RecordMode,
)
    requires
        d1.version == FORMAT_VERSION,
        spec_fingerprint(d1.request) != spec_fingerprint(r2),
        store.dom().contains(spec_dir_path(dir, spec_fingerprint(d1.request))),
        store[spec_dir_path(dir, spec_fingerprint(d1.request))] == spec_enc_doc(d1),
    ensures
        ({
            let p1 = spec_dir_path(dir, spec_fingerprint(d1.request));
            let p2 = spec_dir_path(dir, spec_fingerprint(r2));
            let store2 = store.insert(p2, b2);
            p1 != p2 && store2.dom().contains(p1) && store2[p1] == spec_enc_doc(d1)
                && spec_attempt(mode, false, Some(store2[p1]), d1.request) == AttemptModel::Hit(
                d1.response,
            )
        }),
{
    lemma_dir_path_injective(dir, spec_fingerprint(d1.request), spec_fingerprint(r2));
    lemma_same_request_replays(d1, mode);
}

/// The changed-request legs of the concrete scenario: in a directory store
/// that holds only the recording of one request, a request with a different
/// fingerprint finds no document, so under `NewEpisodes` one fresh live call
/// is asked for and under `OnlyReplay` the call fails.  The fingerprint
/// inequality is a premise: the digest is an outside result, and freedom
/// from collisions is not guaranteed.
pub proof fn lemma_changed_request_misses(
    dir: Seq<char>,
    store: Map<Seq<char>, Seq<u8>>,
    r1: ReqModel,
    r2: ReqModel,
    mode: RecordMode,
)
    requires
        spec_fingerprint(r1) != spec_fingerprint(r2),
        forall|k: Seq<char>|
            store.dom().contains(k) ==> k == spec_dir_path(dir, spec_fingerprint(r1)),
    ensures
        !store.dom().contains(spec_dir_path(dir, spec_fingerprint(r2))),
        spec_attempt(mode, false, Option::None, r2) == spec_miss(mode),
        spec_attempt(RecordMode::NewEpisodes, false, Option::None, r2)
            == AttemptModel::NeedsLive,
        spec_attempt(RecordMode::OnlyReplay, false, Option::None, r2)
            == AttemptModel::PolicyViolation,
{
    lemma_dir_path_injective(dir, spec_fingerprint(r1), spec_fingerprint(r2));
}

} // verus!
