//! Servers: where requests go, when they are sent again, and what an answer cost.
use vstd::prelude::*;
use vstd::utf8::{encode_utf8, valid_utf8};

use crate::answers::{double_bits, read_double, read_text, text_of_json};
use crate::canonical::{canonical, canonical_bytes, fits, written, MAX_BYTES, Written};
use crate::contract::{request_json, JevRequest, OPENROUTER_DEFAULT_MODEL, TYPESAFE_DEFAULT_MODEL};
use crate::errors::{row_fault, ErrorKind, Fault, JevError};
use crate::json::{member, Json, JsonValue};
use crate::metrics::{attempted, counted, JevMetrics};
use crate::parse::{parse_value, received};
use crate::text::{
    blank, chars_of, decimal, decimal_text, is_blank, join2, join3, read_unsigned, same, trim,
    trim_end, trimmed_end, trimmed_start, unsigned_value, without_end,
};

verus! {

/// How many requests a process has in flight at most.
pub const PROCESS_MAX_CONCURRENCY: usize = 8;

/// How often a request is sent at most.
pub const MAX_ATTEMPTS: usize = 4;

/// How many seconds a request may take, with all its attempts and pauses.
pub const REQUEST_TIMEOUT_SECONDS: u64 = 60;

/// The nanoseconds of a second.
pub const NANOS_PER_SECOND: u128 = 1_000_000_000;

/// The nanoseconds of a millisecond.
pub const NANOS_PER_MILLISECOND: u128 = 1_000_000;

/// The name of the key for TypeSafe.
pub const TYPESAFE_KEY: &'static str = "TYPESAFE_API_KEY";

/// The name of the key for OpenRouter.
pub const OPENROUTER_KEY: &'static str = "OPENROUTER_API_KEY";

/// The name of the key for other servers.
pub const COMPATIBLE_KEY: &'static str = "JEV_API_KEY";

/// The kind of a server.
#[derive(Debug, Clone, Copy, PartialEq, Eq, Structural)]
pub enum ServerKind {
    TypeSafe,
    OpenRouter,
    Compatible,
}

/// How the cost of an answer is found.
#[derive(Debug, Clone, Copy)]
pub enum Pricing {
    /// A published rate for this exact model id. Integer nanodollars retain
    /// sub-cent costs without rounding them to zero.
    ModelRate { model: &'static str, nano_per_token: u64 },
    /// The cost in dollars that the server reports.
    ReportedCost,
}

/// A server and how to speak to it. It holds a secret and is not shown.
pub struct JevProvider {
    pub api_key: Option<String>,
    pub endpoint: String,
    pub default_model: String,
    pub key_name: &'static str,
    pub kind: ServerKind,
    pub pricing: Pricing,
}

/// A server answered with a status that is no success.
#[derive(Debug, Clone)]
pub struct JevHttpError {
    pub status: u16,
    pub function: String,
    pub fatal: bool,
}

/// The error for a status that is no success.
pub open spec fn http_fault(status: u16, function: Seq<char>, fatal: bool) -> Fault {
    Fault {
        kind: ErrorKind::Http { status, fatal },
        message: "Jev HTTP "@ + decimal(status as nat) + " for "@ + function,
    }
}

impl JevHttpError {
    /// The text of the error.
    pub fn message(&self) -> (text: String)
        ensures
            text@ == "Jev HTTP "@ + decimal(self.status as nat) + " for "@ + self.function@,
    {
        let start = join3("Jev HTTP ", decimal_text(self.status as u64).as_str(), " for ");
        join2(start.as_str(), self.function.as_str())
    }

    /// The same error among all errors of the library.
    pub fn into_error(self) -> (error: JevError)
        ensures
            error@ == http_fault(self.status, self.function@, self.fatal),
    {
        let message = self.message();
        JevError { kind: ErrorKind::Http { status: self.status, fatal: self.fatal }, message }
    }
}

/// A path under a base URL, however many slashes end the latter.
pub open spec fn joined_url(base_url: Seq<char>, path: Seq<char>) -> Seq<char> {
    without_end(base_url, '/') + path
}

/// A path under a base URL, however many slashes end the latter.
pub fn join_url(base_url: &str, path: &str) -> (url: String)
    ensures
        url@ == joined_url(base_url@, path@),
{
    join2(trim_end(base_url, '/').as_str(), path)
}

/// A key that is not blank.
pub open spec fn usable_key(api_key: Option<String>) -> Option<Seq<char>> {
    match api_key {
        Some(key) if !blank(key@) => Some(key@),
        _ => None,
    }
}

/// The text of a key.
pub open spec fn key_text(api_key: Option<String>) -> Option<Seq<char>> {
    match api_key {
        Some(key) => Some(key@),
        None => None,
    }
}

/// TypeSafe's System One API. One server, not the only one.
pub struct TypeSafe;

impl TypeSafe {
    pub const DEFAULT_BASE_URL: &'static str = "https://api.typesafe.ai";

    pub const DEFAULT_MODEL: &'static str = TYPESAFE_DEFAULT_MODEL;

    /// TypeSafe under a base URL.
    pub fn new(api_key: Option<String>, base_url: &str) -> (provider: JevProvider)
        ensures
            key_text(provider.api_key) == usable_key(api_key),
            provider.endpoint@ == without_end(joined_url(base_url@, "/v1/systemone"@), '/'),
            provider.default_model@ == TYPESAFE_DEFAULT_MODEL@,
            provider.key_name@ == TYPESAFE_KEY@,
            provider.kind == ServerKind::TypeSafe,
            provider.pricing matches Pricing::ModelRate { model, nano_per_token } && model@
                == TYPESAFE_DEFAULT_MODEL@ && nano_per_token == 42,
    {
        JevProvider::build(
            api_key,
            join_url(base_url, "/v1/systemone").as_str(),
            TYPESAFE_DEFAULT_MODEL,
            TYPESAFE_KEY,
            ServerKind::TypeSafe,
            Pricing::ModelRate { model: TYPESAFE_DEFAULT_MODEL, nano_per_token: 42 },
        )
    }
}

/// OpenRouter's Decisions API. Same question types, different path and model id.
pub struct OpenRouter;

impl OpenRouter {
    pub const DEFAULT_BASE_URL: &'static str = "https://openrouter.ai";

    pub const DEFAULT_MODEL: &'static str = OPENROUTER_DEFAULT_MODEL;

    /// OpenRouter under a base URL.
    pub fn new(api_key: Option<String>, base_url: &str) -> (provider: JevProvider)
        ensures
            key_text(provider.api_key) == usable_key(api_key),
            provider.endpoint@ == without_end(joined_url(base_url@, "/api/alpha/decisions"@), '/'),
            provider.default_model@ == OPENROUTER_DEFAULT_MODEL@,
            provider.key_name@ == OPENROUTER_KEY@,
            provider.kind == ServerKind::OpenRouter,
            provider.pricing is ReportedCost,
    {
        JevProvider::build(
            api_key,
            join_url(base_url, "/api/alpha/decisions").as_str(),
            OPENROUTER_DEFAULT_MODEL,
            OPENROUTER_KEY,
            ServerKind::OpenRouter,
            Pricing::ReportedCost,
        )
    }
}

/// Any HTTP endpoint that accepts the System One JSON body.
///
/// Use this for Vercel's TypeSafe-compatible base URL and for models that are
/// not Jev. The caller supplies the full request URL and the default model id.
pub struct Compatible;

impl Compatible {
    /// A server at an endpoint.
    pub fn new(api_key: Option<String>, endpoint: &str, default_model: &str) -> (provider:
        JevProvider)
        ensures
            key_text(provider.api_key) == usable_key(api_key),
            provider.endpoint@ == without_end(endpoint@, '/'),
            provider.default_model@ == default_model@,
            provider.key_name@ == COMPATIBLE_KEY@,
            provider.kind == ServerKind::Compatible,
            provider.pricing is ReportedCost,
    {
        JevProvider::build(
            api_key,
            endpoint,
            default_model,
            COMPATIBLE_KEY,
            ServerKind::Compatible,
            Pricing::ReportedCost,
        )
    }
}

/// Whether a status asks a client of a kind of server to try again.
pub open spec fn retried(kind: ServerKind, status: u16) -> bool {
    match kind {
        ServerKind::OpenRouter => status == 429,
        _ => status == 429 || status == 529,
    }
}

/// Whether a status of a kind of server is no failed judgment but a fault that the
/// null policy must let through.
pub open spec fn fatal_for(kind: ServerKind, status: u16) -> bool {
    match kind {
        ServerKind::OpenRouter => status == 401 || status == 402 || status == 422,
        _ => status == 401 || status == 422,
    }
}

impl JevProvider {
    /// TypeSafe client. `base_url` is the origin; requests go to
    /// `{base_url}/v1/systemone`.
    pub fn new(api_key: Option<String>, base_url: &str) -> (provider: JevProvider)
        ensures
            key_text(provider.api_key) == usable_key(api_key),
            provider.endpoint@ == without_end(joined_url(base_url@, "/v1/systemone"@), '/'),
            provider.default_model@ == TYPESAFE_DEFAULT_MODEL@,
            provider.key_name@ == TYPESAFE_KEY@,
            provider.kind == ServerKind::TypeSafe,
            provider.pricing matches Pricing::ModelRate { model, nano_per_token } && model@
                == TYPESAFE_DEFAULT_MODEL@ && nano_per_token == 42,
    {
        TypeSafe::new(api_key, base_url)
    }

    /// A server with a key that is not blank and an endpoint that ends in no slash.
    fn build(
        api_key: Option<String>,
        endpoint: &str,
        default_model: &str,
        key_name: &'static str,
        kind: ServerKind,
        pricing: Pricing,
    ) -> (provider: JevProvider)
        ensures
            key_text(provider.api_key) == usable_key(api_key),
            provider.endpoint@ == without_end(endpoint@, '/'),
            provider.default_model@ == default_model@,
            provider.key_name == key_name,
            provider.kind == kind,
            provider.pricing == pricing,
    {
        let key = match api_key {
            Some(key) => if is_blank(key.as_str()) {
                None
            } else {
                Some(key)
            },
            None => None,
        };
        JevProvider {
            api_key: key,
            endpoint: trim_end(endpoint, '/'),
            default_model: default_model.to_owned(),
            key_name,
            kind,
            pricing,
        }
    }

    /// Whether a status asks to try again.
    pub fn retries(&self, status: u16) -> (yes: bool)
        ensures
            yes == retried(self.kind, status),
    {
        match self.kind {
            ServerKind::OpenRouter => status == 429,
            ServerKind::TypeSafe | ServerKind::Compatible => status == 429 || status == 529,
        }
    }

    /// Whether a status is a fault that the null policy must let through.
    pub fn fatal_status(&self, status: u16) -> (yes: bool)
        ensures
            yes == fatal_for(self.kind, status),
    {
        match self.kind {
            ServerKind::OpenRouter => status == 401 || status == 402 || status == 422,
            ServerKind::TypeSafe | ServerKind::Compatible => status == 401 || status == 422,
        }
    }
}

/// What is sent: where to, the key, and the one byte form of a request.
pub struct Outgoing {
    pub endpoint: String,
    pub key: String,
    pub body: Vec<u8>,
}

/// The error for a request without a key.
pub open spec fn key_fault(function: Seq<char>, key_name: Seq<char>) -> Fault {
    row_fault(function + " requires "@ + key_name)
}

impl JevProvider {
    /// What is sent for a request.
    pub fn prepare(&self, request: &JevRequest, function: &str) -> (result: Result<
        Outgoing,
        JevError,
    >)
        ensures
            match result {
                Ok(outgoing) => {
                    &&& outgoing.endpoint@ == self.endpoint@
                    &&& key_text(self.api_key) == Some(outgoing.key@)
                    &&& fits(request_json(request@))
                    &&& outgoing.body@ == canonical(request_json(request@))
                },
                Err(error) => if self.api_key is None {
                    error@ == key_fault(function@, self.key_name@)
                } else {
                    !fits(request_json(request@)) && written(
                        request_json(request@),
                        0,
                        Seq::empty(),
                    ) == Written::Err(error@)
                },
            },
    {
        let key = match &self.api_key {
            Some(key) => key.clone(),
            None => {
                return Err(
                    JevError::execution(join3(function, " requires ", self.key_name).as_str()),
                );
            },
        };
        match canonical_bytes(&request.to_json()) {
            Ok(body) => Ok(Outgoing { endpoint: self.endpoint.clone(), key, body }),
            Err(error) => Err(error),
        }
    }
}

/// What follows an answer of the server.
#[derive(Debug)]
pub enum SendStep {
    /// Pause for some nanoseconds and send the request again.
    Pause(u128),
    /// Read the body.
    Read,
    Fail(JevError),
}

/// The shortest pause after an attempt, in milliseconds: a tenth of a second,
/// doubled with each attempt.
pub open spec fn base_pause(attempt: nat) -> nat {
    if attempt == 0 {
        100
    } else if attempt == 1 {
        200
    } else {
        400
    }
}

/// The backoff after an attempt, in nanoseconds: the shortest pause and a random
/// part of at most the same length.
pub open spec fn backoff(attempt: nat, jitter: nat) -> nat {
    (base_pause(attempt) + jitter) * NANOS_PER_MILLISECOND as nat
}

/// The pause after an attempt: the longer of the backoff and what the server asks
/// for.
pub open spec fn pause(attempt: nat, after: Option<u128>, jitter: nat) -> nat {
    match after {
        Some(after) if after > backoff(attempt, jitter) => after as nat,
        _ => backoff(attempt, jitter),
    }
}

/// Whether a status is a success.
pub open spec fn success(status: u16) -> bool {
    200 <= status < 300
}

/// Whether the request is sent again after an attempt that got a status.
pub open spec fn goes_on(kind: ServerKind, attempt: nat, status: u16) -> bool {
    retried(kind, status) && attempt + 1 < MAX_ATTEMPTS
}

/// The error for a server that asks for a pause that is too long.
pub open spec fn pause_fault(function: Seq<char>, status: u16) -> Fault {
    row_fault(
        "Jev "@ + function + " HTTP "@ + decimal(status as nat)
            + " Retry-After exceeds its 60 second request deadline"@,
    )
}

/// What follows an answer, given what the server asks for and the random part of
/// the backoff.
pub open spec fn follows(
    kind: ServerKind,
    function: Seq<char>,
    attempt: nat,
    status: u16,
    after: Option<u128>,
    jitter: nat,
    step: SendStep,
) -> bool {
    if goes_on(kind, attempt, status) {
        let nanos = pause(attempt, after, jitter);
        if nanos >= REQUEST_TIMEOUT_SECONDS * NANOS_PER_SECOND {
            step matches SendStep::Fail(error) && error@ == pause_fault(function, status)
        } else {
            step matches SendStep::Pause(time) && time == nanos
        }
    } else if !success(status) {
        step matches SendStep::Fail(error) && error@ == http_fault(
            status,
            function,
            fatal_for(kind, status),
        )
    } else {
        step is Read
    }
}

/// What can follow an answer with the text of a `Retry-After` header, if the server sent
/// one: the clock and the random part of the backoff are left open.
pub open spec fn can_follow(
    kind: ServerKind,
    function: Seq<char>,
    attempt: nat,
    status: u16,
    header: Option<Seq<char>>,
    step: SendStep,
) -> bool {
    exists|after: Option<u128>, jitter: nat|
        jitter <= base_pause(attempt) && (header is None ==> after is None) && (
        header matches Some(text) ==> exists|now: u128| after == #[trigger] asked_wait(text, now))
            && #[trigger] follows(kind, function, attempt, status, after, jitter, step)
}

/// `fastrand::u64` on the range from zero to a bound: a random number within that
/// range.
#[verifier::external_body]
fn random_up_to(most: u64) -> (number: u64)
    ensures
        number <= most,
{
    fastrand::u64(0..=most)
}

/// What an HTTP date denotes, in seconds since 1970.
pub uninterp spec fn http_date(text: Seq<char>) -> Option<u64>;

/// `httpdate::parse_http_date`: the seconds since 1970 that a date of a header
/// denotes. It accepts no date before 1970 or after 9999.
#[verifier::external_body]
fn read_http_date(text: &str) -> (seconds: Option<u64>)
    ensures
        seconds == http_date(text@),
        seconds matches Some(seconds) ==> seconds < 253_402_300_800,
{
    let date = httpdate::parse_http_date(text).ok()?;
    date.duration_since(std::time::SystemTime::UNIX_EPOCH).ok().map(|time| time.as_secs())
}

/// `std::time::SystemTime::now`, in nanoseconds since 1970; zero for a clock that is
/// set before that.
#[verifier::external_body]
fn now() -> (nanos: u128) {
    std::time::SystemTime::now().duration_since(
        std::time::SystemTime::UNIX_EPOCH,
    ).unwrap_or_default().as_nanos()
}

/// How long a server asks to wait, in nanoseconds: a number of seconds, or until a
/// date, which may already be over.
pub open spec fn asked_wait(value: Seq<char>, now: u128) -> Option<u128> {
    match unsigned_value(trimmed_end(trimmed_start(value))) {
        Some(seconds) if seconds <= u64::MAX => Some((seconds * NANOS_PER_SECOND) as u128),
        _ => match http_date(value) {
            Some(date) => Some(
                if date * NANOS_PER_SECOND > now {
                    (date * NANOS_PER_SECOND - now) as u128
                } else {
                    0
                },
            ),
            None => None,
        },
    }
}

/// How long a server asks to wait at a time.
pub fn retry_after_at(value: &str, now: u128) -> (wait: Option<u128>)
    ensures
        wait == asked_wait(value@, now),
{
    if let Some(seconds) = read_unsigned(&trim(value)) {
        return Some(seconds as u128 * NANOS_PER_SECOND);
    }
    match read_http_date(value) {
        Some(date) => {
            let time: u128 = date as u128 * NANOS_PER_SECOND;
            if time > now {
                Some(time - now)
            } else {
                Some(0)
            }
        },
        None => None,
    }
}

/// How long a server asks to wait from now on. Where it names a date, that depends
/// on the clock.
pub fn retry_after(value: &str) -> (wait: Option<u128>)
    ensures
        exists|now: u128| wait == asked_wait(value@, now),
{
    let time = now();
    let wait = retry_after_at(value, time);
    assert(wait == asked_wait(value@, time));
    wait
}

impl JevProvider {
    /// What follows an answer, given what the server asks for and the random part
    /// of the backoff.
    pub fn step_with(
        &self,
        function: &str,
        attempt: usize,
        status: u16,
        after: Option<u128>,
        jitter: u64,
    ) -> (step: SendStep)
        requires
            jitter <= base_pause(attempt as nat),
        ensures
            follows(self.kind, function@, attempt as nat, status, after, jitter as nat, step),
    {
        if self.retries(status) && attempt < MAX_ATTEMPTS - 1 {
            let base = shortest_pause(attempt);
            let backoff: u128 = (base + jitter) as u128 * NANOS_PER_MILLISECOND;
            let nanos: u128 = match after {
                Some(after) => if after > backoff {
                    after
                } else {
                    backoff
                },
                None => backoff,
            };
            if nanos >= REQUEST_TIMEOUT_SECONDS as u128 * NANOS_PER_SECOND {
                let mut message = join3("Jev ", function, " HTTP ");
                message.append(decimal_text(status as u64).as_str());
                message.append(" Retry-After exceeds its 60 second request deadline");
                return SendStep::Fail(JevError::execution(message.as_str()));
            }
            return SendStep::Pause(nanos);
        }
        if status < 200 || status >= 300 {
            let error = JevHttpError {
                status,
                function: function.to_owned(),
                fatal: self.fatal_status(status),
            };
            return SendStep::Fail(error.into_error());
        }
        SendStep::Read
    }

    /// What follows an answer with a status and, if the server sent one, the text of
    /// its `Retry-After` header. The backoff has a random part.
    pub fn step(&self, function: &str, attempt: usize, status: u16, header: Option<&str>) -> (step:
        SendStep)
        ensures
            can_follow(
                self.kind,
                function@,
                attempt as nat,
                status,
                match header {
                    Some(text) => Some(text@),
                    None => None,
                },
                step,
            ),
            step is Pause ==> goes_on(self.kind, attempt as nat, status),
    {
        let again = self.retries(status) && attempt < MAX_ATTEMPTS - 1;
        if !again {
            let step = self.step_with(function, attempt, status, None, 0);
            proof {
                let after = match header {
                    Some(text) => asked_wait(text@, 0),
                    None => None,
                };
                assert(follows(self.kind, function@, attempt as nat, status, after, 0, step));
            }
            return step;
        }
        let after = match header {
            Some(text) => retry_after(text),
            None => None,
        };
        let jitter = random_up_to(shortest_pause(attempt));
        self.step_with(function, attempt, status, after, jitter)
    }
}

/// The shortest pause after an attempt, in milliseconds.
fn shortest_pause(attempt: usize) -> (milliseconds: u64)
    ensures
        milliseconds == base_pause(attempt as nat),
{
    if attempt == 0 {
        100
    } else if attempt == 1 {
        200
    } else {
        400
    }
}

/// The attempts to send one request.
pub struct Attempts {
    outgoing: Outgoing,
    sent: usize,
}

impl Attempts {
    /// What each attempt sends.
    pub closed spec fn carried(&self) -> Outgoing {
        self.outgoing
    }

    /// How often it was sent.
    pub closed spec fn sent(&self) -> nat {
        self.sent as nat
    }

    /// What each attempt sends.
    pub fn outgoing(&self) -> (outgoing: &Outgoing)
        ensures
            *outgoing == self.carried(),
    {
        &self.outgoing
    }

    /// Counts an attempt, which is about to be made.
    pub fn count(&mut self, metrics: &mut JevMetrics)
        requires
            old(self).sent() < MAX_ATTEMPTS,
        ensures
            final(self).carried() == old(self).carried(),
            final(self).sent() == old(self).sent() + 1,
            *final(metrics) == attempted(*old(metrics), old(self).sent()),
    {
        metrics.count_attempt(self.sent);
        self.sent = self.sent + 1;
    }

    /// What follows the answer to the last attempt. Only a status that asks to try again
    /// leads to another attempt, and only as long as there are any left.
    pub fn answer(
        &self,
        provider: &JevProvider,
        function: &str,
        status: u16,
        header: Option<&str>,
    ) -> (step: SendStep)
        requires
            0 < self.sent() <= MAX_ATTEMPTS,
        ensures
            can_follow(
                provider.kind,
                function@,
                (self.sent() - 1) as nat,
                status,
                match header {
                    Some(text) => Some(text@),
                    None => None,
                },
                step,
            ),
            step is Pause ==> retried(provider.kind, status) && self.sent() < MAX_ATTEMPTS,
    {
        provider.step(function, self.sent - 1, status, header)
    }
}

impl JevProvider {
    /// Begins to send a request: none is sent yet.
    pub fn begin(&self, request: &JevRequest, function: &str) -> (result: Result<
        Attempts,
        JevError,
    >)
        ensures
            match result {
                Ok(attempts) => {
                    &&& attempts.sent() == 0
                    &&& attempts.carried().endpoint@ == self.endpoint@
                    &&& key_text(self.api_key) == Some(attempts.carried().key@)
                    &&& fits(request_json(request@))
                    &&& attempts.carried().body@ == canonical(request_json(request@))
                },
                Err(error) => if self.api_key is None {
                    error@ == key_fault(function@, self.key_name@)
                } else {
                    !fits(request_json(request@)) && written(
                        request_json(request@),
                        0,
                        Seq::empty(),
                    ) == Written::Err(error@)
                },
            },
    {
        match self.prepare(request, function) {
            Ok(outgoing) => Ok(Attempts { outgoing, sent: 0 }),
            Err(error) => Err(error),
        }
    }
}

/// Counters after a request was sent some times.
pub open spec fn after_sends(metrics: JevMetrics, count: nat) -> JevMetrics
    decreases count,
{
    if count == 0 {
        metrics
    } else {
        attempted(after_sends(metrics, (count - 1) as nat), (count - 1) as nat)
    }
}

/// Counters count each attempt once, and all but the first as further ones.
proof fn attempts_add_up(metrics: JevMetrics, count: nat)
    requires
        count <= MAX_ATTEMPTS,
    ensures
        after_sends(metrics, count) == (JevMetrics {
            requests: counted(metrics.requests, count as usize),
            retries: counted(
                metrics.retries,
                if count > 0 {
                    (count - 1) as usize
                } else {
                    0
                },
            ),
            ..metrics
        }),
    decreases count,
{
    if count > 0 {
        attempts_add_up(metrics, (count - 1) as nat);
    }
}

/// What came of an attempt: the status of the answer, the text of its `Retry-After` header,
/// and what follows it, or no answer.
pub ghost enum Attempt {
    Answered(u16, Option<Seq<char>>, SendStep),
    Unanswered,
}

/// Whether some attempts are a whole run for a request: each is answered as the library
/// says, and each but the last leads to another one.
pub open spec fn whole_run(kind: ServerKind, function: Seq<char>, attempts: Seq<Attempt>) -> bool {
    &&& attempts.len() > 0
    &&& forall|k: int|
        0 <= k < attempts.len() ==> match #[trigger] attempts[k] {
            Attempt::Answered(status, header, step) => can_follow(
                kind,
                function,
                k as nat,
                status,
                header,
                step,
            ),
            Attempt::Unanswered => true,
        }
    &&& forall|k: int|
        0 <= k < attempts.len() ==> (k < attempts.len() - 1 <==> (
        #[trigger] attempts[k] matches Attempt::Answered(_, _, step) && step is Pause))
}

/// In a whole run a request is sent at least once and at most four times, each time but
/// the first after a status that asks to try again, and the counters grow by the number of
/// times and by the number of times but the first.
pub proof fn runs_are_counted(
    kind: ServerKind,
    function: Seq<char>,
    attempts: Seq<Attempt>,
    metrics: JevMetrics,
)
    requires
        whole_run(kind, function, attempts),
    ensures
        1 <= attempts.len() <= MAX_ATTEMPTS,
        forall|k: int|
            0 <= k < attempts.len() - 1 ==> (#[trigger] attempts[k] matches Attempt::Answered(
                status,
                _,
                _,
            ) && retried(kind, status)),
        after_sends(metrics, attempts.len()) == (JevMetrics {
            requests: counted(metrics.requests, attempts.len() as usize),
            retries: counted(metrics.retries, (attempts.len() - 1) as usize),
            ..metrics
        }),
{
    let count = attempts.len() as int;
    assert forall|k: int| 0 <= k < count - 1 implies (
    #[trigger] attempts[k] matches Attempt::Answered(status, _, _) && goes_on(
        kind,
        k as nat,
        status,
    )) by {
        assert(attempts[k]->Answered_2 is Pause);
    }
    if count > 1 {
        assert(attempts[count - 2] is Answered);
    }
    attempts_add_up(metrics, attempts.len());
}

/// How often a request is sent from an attempt on, given the statuses that the
/// server answers with.
pub open spec fn sends(kind: ServerKind, attempt: nat, statuses: Seq<u16>) -> nat
    decreases statuses.len(),
{
    if statuses.len() == 0 {
        0
    } else if goes_on(kind, attempt, statuses[0]) {
        1 + sends(kind, attempt + 1, statuses.drop_first())
    } else {
        1
    }
}

/// Whatever a server answers, a request is sent at most four times in all, and so
/// from an attempt on at most as often as is left of that.
pub proof fn sends_are_bounded(kind: ServerKind, attempt: nat, statuses: Seq<u16>)
    requires
        attempt < MAX_ATTEMPTS,
    ensures
        sends(kind, attempt, statuses) <= MAX_ATTEMPTS - attempt,
    decreases statuses.len(),
{
    if statuses.len() > 0 && goes_on(kind, attempt, statuses[0]) {
        sends_are_bounded(kind, attempt + 1, statuses.drop_first());
    }
}

/// A status that is neither a success nor one that asks to try again ends the
/// request at once, and the pause before another attempt is shorter than the time
/// that a request may take.
pub proof fn refusals_are_final(
    kind: ServerKind,
    function: Seq<char>,
    attempt: nat,
    status: u16,
    after: Option<u128>,
    jitter: nat,
    step: SendStep,
)
    requires
        follows(kind, function, attempt, status, after, jitter, step),
    ensures
        !retried(kind, status) && !success(status) ==> (step matches SendStep::Fail(error)
            && error@ == http_fault(status, function, fatal_for(kind, status))),
        step matches SendStep::Pause(nanos) ==> nanos < REQUEST_TIMEOUT_SECONDS * NANOS_PER_SECOND
            && nanos >= base_pause(attempt) * NANOS_PER_MILLISECOND,
        step is Pause && after is Some ==> step->Pause_0 >= after.unwrap(),
{
    let base = base_pause(attempt);
    assert((base + jitter) * 1_000_000 >= base * 1_000_000) by (nonlinear_arith);
}

/// The error for a request that never got an answer.
pub fn transport_error() -> (error: JevError)
    ensures
        error@ == row_fault("Jev request failed or timed out"@),
{
    JevError::execution("Jev request failed or timed out")
}

/// The error for a request that took too long with all its attempts.
pub fn deadline_error(function: &str) -> (error: JevError)
    ensures
        error@ == row_fault("Jev "@ + function@ + " exceeded its 60 second request deadline"@),
{
    JevError::execution(
        join3("Jev ", function, " exceeded its 60 second request deadline").as_str(),
    )
}

/// The error for a response that is too large.
pub open spec fn response_size_fault() -> Fault {
    row_fault("Jev response exceeds the local 1048576-byte JSON limit"@)
}

/// Adds a part of a response to what was read of it, as far as the limit allows. A
/// part that goes beyond the limit changes nothing.
pub fn read_chunk(body: &mut Vec<u8>, chunk: &[u8]) -> (result: Result<(), JevError>)
    ensures
        match result {
            Ok(_) => final(body)@ == old(body)@ + chunk@ && (chunk@.len() > 0 ==> final(body)@.len()
                <= MAX_BYTES),
            Err(error) => final(body)@ == old(body)@ && old(body)@.len() + chunk@.len() > MAX_BYTES
                && chunk@.len() > 0 && error@ == response_size_fault(),
        },
{
    let room: usize = if body.len() < MAX_BYTES { MAX_BYTES - body.len() } else { 0 };
    if chunk.len() > room {
        return Err(
            JevError::execution("Jev response exceeds the local 1048576-byte JSON limit"),
        );
    }
    let ghost before = body@;
    body.extend_from_slice(chunk);
    assert(body@ =~= before + chunk@);
    Ok(())
}

/// `String::from_utf8` of the standard library: the text that some bytes encode,
/// where they are UTF-8.
#[verifier::external_body]
fn decode_utf8_text(bytes: Vec<u8>) -> (text: Option<String>)
    ensures
        text is Some == valid_utf8(bytes@),
        text matches Some(text) ==> encode_utf8(text@) == bytes@,
{
    String::from_utf8(bytes).ok()
}

/// The text of a response whose bytes were all read.
pub fn finish_body(body: Vec<u8>) -> (result: Result<String, JevError>)
    ensures
        match result {
            Ok(text) => valid_utf8(body@) && encode_utf8(text@) == body@,
            Err(error) => !valid_utf8(body@) && error@ == row_fault(
                "Jev response is not valid UTF-8"@,
            ),
        },
{
    match decode_utf8_text(body) {
        Some(text) => Ok(text),
        None => Err(JevError::execution("Jev response is not valid UTF-8")),
    }
}

/// What a response says of its own cost: the model, the tokens that went in and
/// came out, and the bits of the cost in dollars.
#[derive(Debug)]
pub struct ReportedUsage {
    pub model: Option<String>,
    pub input_tokens: Option<u64>,
    pub output_tokens: Option<u64>,
    pub cost: Option<u64>,
}

/// The meaning of a [`ReportedUsage`].
pub ghost struct Usage {
    pub model: Option<Seq<char>>,
    pub input_tokens: Option<u64>,
    pub output_tokens: Option<u64>,
    pub cost: Option<u64>,
}

impl View for ReportedUsage {
    type V = Usage;

    open spec fn view(&self) -> Usage {
        Usage {
            model: match self.model {
                Some(model) => Some(model@),
                None => None,
            },
            input_tokens: self.input_tokens,
            output_tokens: self.output_tokens,
            cost: self.cost,
        }
    }
}

/// The integer of at most 64 bits that a JSON value denotes, if it denotes one.
pub open spec fn unsigned_of(value: Json) -> Option<u64> {
    match value {
        Json::Number(number) => match unsigned_value(number) {
            Some(count) if count <= u64::MAX => Some(count as u64),
            _ => None,
        },
        _ => None,
    }
}

/// The bits of the finite number that a JSON value denotes, if it denotes one.
pub open spec fn bits_of(value: Json) -> Option<u64> {
    match value {
        Json::Number(number) => double_bits(number),
        _ => None,
    }
}

/// What the JSON value of a response says of its own cost.
pub open spec fn usage_in(response: Json) -> Usage {
    let usage = member(response, "usage"@);
    Usage {
        model: text_of_json(member(response, "model"@)),
        input_tokens: unsigned_of(member(usage, "input_tokens"@)),
        output_tokens: unsigned_of(member(usage, "output_tokens"@)),
        cost: bits_of(member(usage, "cost"@)),
    }
}

/// What the text of a response says of its own cost; none where it is no JSON.
pub open spec fn reported_usage(raw: Seq<char>) -> Option<Usage> {
    match rewritten(raw) {
        None => None,
        Some(text) => match received(text) {
            None => None,
            Some(response) => Some(usage_in(response)),
        },
    }
}

/// The JSON text that `serde_json` writes for the value that it reads from a text;
/// none where it reads none.
pub uninterp spec fn rewritten(raw: Seq<char>) -> Option<Seq<char>>;

/// `serde_json::from_str` into a value, which is handed on as the text that
/// `serde_json` writes for it.
#[verifier::external_body]
fn rewrite(raw: &str) -> (text: Option<String>)
    ensures
        match (text, rewritten(raw@)) {
            (Some(text), Some(expected)) => text@ == expected,
            (None, None) => true,
            _ => false,
        },
{
    let value = serde_json::from_str::<serde_json::Value>(raw).ok()?;
    Some(value.to_string())
}

/// Reads an integer.
fn read_count(value: &JsonValue) -> (count: Option<u64>)
    ensures
        count == unsigned_of(value@),
{
    match value {
        JsonValue::Number(number) => read_unsigned(&chars_of(number.as_str())),
        _ => None,
    }
}

/// Reads a number.
fn read_bits(value: &JsonValue) -> (bits: Option<u64>)
    ensures
        bits == bits_of(value@),
{
    match value {
        JsonValue::Number(number) => read_double(number.as_str()),
        _ => None,
    }
}

/// What the JSON value of a response says of its own cost.
pub fn read_usage(response: &JsonValue) -> (usage: ReportedUsage)
    ensures
        usage@ == usage_in(response@),
{
    let usage = response.member("usage");
    ReportedUsage {
        model: read_text(&response.member("model")),
        input_tokens: read_count(&usage.member("input_tokens")),
        output_tokens: read_count(&usage.member("output_tokens")),
        cost: read_bits(&usage.member("cost")),
    }
}

/// What the text of a response says of its own cost.
pub fn usage_of(raw: &str) -> (usage: Option<ReportedUsage>)
    ensures
        match (usage, reported_usage(raw@)) {
            (Some(usage), Some(expected)) => usage@ == expected,
            (None, None) => true,
            _ => false,
        },
{
    let text = match rewrite(raw) {
        Some(text) => text,
        None => {
            return None;
        },
    };
    match parse_value(text.as_str()) {
        Some(response) => Some(read_usage(&response)),
        None => None,
    }
}

/// A number of tokens that fits in a counter.
pub open spec fn tokens(count: Option<u64>) -> Option<usize> {
    match count {
        Some(count) if count <= usize::MAX => Some(count as usize),
        _ => None,
    }
}

/// The cost of an answer in nanodollars, as far as it is known: the input tokens at
/// the rate of the model that answered, or what the server reported.
pub open spec fn priced(usage: Usage, pricing: Pricing, reported: Option<usize>) -> Option<usize> {
    match pricing {
        Pricing::ModelRate { model, nano_per_token } => match tokens(usage.input_tokens) {
            Some(count) if usage.model == Some(model@) && count * (nano_per_token as usize)
                <= usize::MAX => Some((count * (nano_per_token as usize)) as usize),
            _ => None,
        },
        Pricing::ReportedCost => reported,
    }
}

/// The counters after an answer was received. An answer whose cost is not known is
/// counted as such.
pub open spec fn metered(
    metrics: JevMetrics,
    usage: Option<Usage>,
    pricing: Pricing,
    reported: Option<usize>,
) -> JevMetrics {
    match usage {
        None => JevMetrics {
            unpriced_requests: counted(metrics.unpriced_requests, 1),
            ..metrics
        },
        Some(usage) => {
            let read = JevMetrics {
                input_tokens: counted(
                    metrics.input_tokens,
                    match tokens(usage.input_tokens) {
                        Some(count) => count,
                        None => 0,
                    },
                ),
                output_tokens: counted(
                    metrics.output_tokens,
                    match tokens(usage.output_tokens) {
                        Some(count) => count,
                        None => 0,
                    },
                ),
                ..metrics
            };
            match priced(usage, pricing, reported) {
                Some(cost) => JevMetrics {
                    estimated_cost_nano_usd: counted(metrics.estimated_cost_nano_usd, cost),
                    ..read
                },
                None => JevMetrics {
                    unpriced_requests: counted(metrics.unpriced_requests, 1),
                    ..read
                },
            }
        },
    }
}

/// A number of tokens that fits in a counter.
fn token_count(count: Option<u64>) -> (result: Option<usize>)
    ensures
        result == tokens(count),
{
    match count {
        Some(count) => if count <= usize::MAX as u64 {
            Some(count as usize)
        } else {
            None
        },
        None => None,
    }
}

/// Counts what an answer cost. `reported` is the cost that the server reported, in
/// nanodollars.
pub fn record_usage(
    usage: &Option<ReportedUsage>,
    metrics: &mut JevMetrics,
    pricing: Pricing,
    reported: Option<usize>,
)
    ensures
        *final(metrics) == metered(
            *old(metrics),
            match *usage {
                Some(usage) => Some(usage@),
                None => None,
            },
            pricing,
            reported,
        ),
{
    let usage = match usage {
        Some(usage) => usage,
        None => {
            metrics.unpriced_requests = metrics.unpriced_requests.wrapping_add(1);
            return ;
        },
    };
    let input = token_count(usage.input_tokens);
    let output = token_count(usage.output_tokens);
    metrics.input_tokens = metrics.input_tokens.wrapping_add(
        match input {
            Some(count) => count,
            None => 0,
        },
    );
    metrics.output_tokens = metrics.output_tokens.wrapping_add(
        match output {
            Some(count) => count,
            None => 0,
        },
    );
    let cost = match pricing {
        Pricing::ModelRate { model, nano_per_token } => {
            let seen = match &usage.model {
                Some(seen) => same(seen.as_str(), model),
                None => false,
            };
            match input {
                Some(count) if seen => count.checked_mul(nano_per_token as usize),
                _ => None,
            }
        },
        Pricing::ReportedCost => reported,
    };
    match cost {
        Some(cost) => {
            metrics.estimated_cost_nano_usd = metrics.estimated_cost_nano_usd.wrapping_add(cost);
        },
        None => {
            metrics.unpriced_requests = metrics.unpriced_requests.wrapping_add(1);
        },
    }
}

} // verus!
