//! What is sent where, how often, and what it costs, told by the numbers of the protocol.
use vstd::layout::size_of;
use vstd::prelude::*;
use vstd::utf8::encode_utf8;

use crate::answers::double_bits;
use crate::contract::{OPENROUTER_DEFAULT_MODEL, TYPESAFE_DEFAULT_MODEL};
use crate::errors::{fatal, shown, ErrorKind};
use crate::execution::{growth, response_bytes, CachedRaw, RequestKey};
use crate::json::{member, Json};
use crate::json_laws::{holds, lacks, members_are_told_by_name};
use crate::metrics::JevMetrics;
use crate::parse::received;
use crate::provider::{
    after_sends, asked_wait, base_pause, can_follow, fatal_for, follows, http_date, joined_url,
    metered, reported_usage, retried, rewritten, unsigned_of, usable_key, usage_in, OpenRouter,
    Pricing, SendStep, ServerKind, TypeSafe, Usage, COMPATIBLE_KEY, OPENROUTER_KEY,
    PROCESS_MAX_CONCURRENCY, TYPESAFE_KEY,
};
use crate::text::{
    all_digits, blank, decimal, decimal_denotes, digit, trimmed_end, trimmed_start, unsigned_value,
    white, without_end,
};
use crate::writing_laws::trimming_takes_white_ends;

verus! {

/// The nanoseconds that pass before a request is sent for the second, third and fourth time:
/// a tenth of a second, twice and four times that, each with up to as much again by chance,
/// and never less than the server asks for.
pub open spec fn wait(attempt: nat, after: Option<u128>, jitter: nat) -> int {
    let own = (100int * (if attempt == 0 {
        1int
    } else if attempt == 1 {
        2
    } else {
        4
    }) + jitter) * 1_000_000;
    match after {
        Some(nanos) => if nanos < own {
            own
        } else {
            nanos as int
        },
        None => own,
    }
}

/// An answer of a server that is too busy is no answer: before the fourth attempt, "too many
/// requests" from any server, and "overloaded" from any but OpenRouter, is followed by a pause
/// and another attempt, unless the pause alone would take the whole minute that a request may
/// take. Nothing else is ever sent again; only success is read; all else fails.
pub proof fn busy_servers_are_asked_again(
    kind: ServerKind,
    function: Seq<char>,
    attempt: nat,
    status: u16,
    after: Option<u128>,
    jitter: nat,
    step: SendStep,
)
    requires
        follows(kind, function, attempt, status, after, jitter, step),
    ensures
        status == 429 && attempt <= 2 && wait(attempt, after, jitter) < 60_000_000_000 ==> step
            == SendStep::Pause(wait(attempt, after, jitter) as u128),
        status == 529 && kind != ServerKind::OpenRouter && attempt <= 2 && wait(
            attempt,
            after,
            jitter,
        ) < 60_000_000_000 ==> step == SendStep::Pause(wait(attempt, after, jitter) as u128),
        step matches SendStep::Pause(nanos) ==> {
            &&& attempt <= 2
            &&& status == 429 || (status == 529 && kind != ServerKind::OpenRouter)
            &&& nanos == wait(attempt, after, jitter)
            &&& nanos < 60_000_000_000
        },
        step is Read <==> 200 <= status <= 299,
        step is Fail && attempt <= 2 && (status == 429 || status == 529 && kind
            != ServerKind::OpenRouter) ==> wait(attempt, after, jitter) >= 60_000_000_000,
{
    assert(100int * 1 * 1_000_000 == 100_000_000);
    if let Some(nanos) = after {
        assert(nanos >= 0);
    }
    assert((100 + jitter) * 1_000_000 == 100_000_000 + jitter * 1_000_000) by (nonlinear_arith);
    assert((200 + jitter) * 1_000_000 == 200_000_000 + jitter * 1_000_000) by (nonlinear_arith);
    assert((400 + jitter) * 1_000_000 == 400_000_000 + jitter * 1_000_000) by (nonlinear_arith);
}

/// A request without a key, with content that the server refuses, or (at OpenRouter) without
/// credit ends the whole query, whatever it does with single failures. Any other refusal
/// concerns its row alone. Each says its status and the function.
pub proof fn some_refusals_end_the_query(
    kind: ServerKind,
    function: Seq<char>,
    attempt: nat,
    status: u16,
    after: Option<u128>,
    jitter: nat,
    step: SendStep,
)
    requires
        follows(kind, function, attempt, status, after, jitter, step),
        step is Fail,
        status != 429 && status != 529,
    ensures
        ({
            let fault = step->Fail_0@;
            &&& fault.kind == ErrorKind::Http { status, fatal: fatal(fault) }
            &&& shown(fault) == "External error: "@ + ("Jev HTTP "@ + decimal(status as nat)
                + " for "@ + function)
            &&& status == 401 || status == 422 ==> fatal(fault)
            &&& status == 402 ==> (fatal(fault) <==> kind == ServerKind::OpenRouter)
            &&& fatal(fault) ==> status == 401 || status == 402 || status == 422
        }),
{
}

/// The statuses that are retried and those that end a query are never the same, and neither
/// is a success.
pub proof fn statuses_are_told_apart(kind: ServerKind, status: u16)
    ensures
        retried(kind, status) ==> !fatal_for(kind, status) && status >= 400,
        fatal_for(kind, status) ==> 400 <= status < 500,
        retried(kind, 429) && !fatal_for(kind, 429),
        fatal_for(kind, 401) && fatal_for(kind, 422),
        retried(kind, 529) <==> kind != ServerKind::OpenRouter,
        fatal_for(kind, 402) <==> kind == ServerKind::OpenRouter,
{
}

/// A server that names a number of seconds is given that time, whenever it is asked.
pub proof fn named_seconds_are_waited(seconds: nat, now: u128)
    requires
        seconds <= u64::MAX,
    ensures
        asked_wait(decimal(seconds), now) == Some((seconds * 1_000_000_000) as u128),
{
    let text = decimal(seconds);
    decimal_denotes(seconds);
    digits_are_not_trimmed(text);
    assert(digit(text[0]));
    assert(text.skip(0) =~= text);
    assert(unsigned_value(text) == Some(seconds));
}

/// Nothing is trimmed off digits.
proof fn digits_are_not_trimmed(text: Seq<char>)
    requires
        all_digits(text),
        text.len() > 0,
    ensures
        trimmed_start(text) == text,
        trimmed_end(text) == text,
{
    assert(digit(text[0]));
    assert(digit(text.last()));
}

/// A server that names a date is given the time until that date, and none if it has passed;
/// what is neither a number nor a date asks for nothing.
pub proof fn named_dates_are_waited_for(text: Seq<char>, now: u128)
    requires
        unsigned_value(trimmed_end(trimmed_start(text))) is None,
    ensures
        match http_date(text) {
            None => asked_wait(text, now) is None,
            Some(date) => asked_wait(text, now) matches Some(nanos) && if date * 1_000_000_000
                <= now {
                nanos == 0
            } else {
                now + nanos == date * 1_000_000_000
            },
        },
{
}

/// Slashes at the end of a base address do not count.
pub proof fn slashes_do_not_count(base_url: Seq<char>, slashes: nat, path: Seq<char>)
    requires
        base_url.len() > 0 ==> base_url.last() != '/',
    ensures
        joined_url(base_url + Seq::new(slashes, |i: int| '/'), path) == base_url + path,
    decreases slashes,
{
    let text = base_url + Seq::new(slashes, |i: int| '/');
    if slashes == 0 {
        assert(text =~= base_url);
    } else {
        slashes_do_not_count(base_url, (slashes - 1) as nat, path);
        assert(text.drop_last() =~= base_url + Seq::new((slashes - 1) as nat, |i: int| '/'));
        assert(text.last() == '/');
    }
}

/// The same without a path.
pub proof fn slashes_end(text: Seq<char>, slashes: nat)
    requires
        text.len() > 0 ==> text.last() != '/',
    ensures
        without_end(text + Seq::new(slashes, |i: int| '/'), '/') == text,
    decreases slashes,
{
    let all = text + Seq::new(slashes, |i: int| '/');
    if slashes == 0 {
        assert(all =~= text);
    } else {
        slashes_end(text, (slashes - 1) as nat);
        assert(all.drop_last() =~= text + Seq::new((slashes - 1) as nat, |i: int| '/'));
        assert(all.last() == '/');
    }
}

/// A key counts as given exactly where something stands in it besides white space, and is
/// used as it was given.
pub proof fn blank_keys_are_no_keys(key: String)
    ensures
        usable_key(Some(key)) matches Some(text) ==> text == key@,
        (exists|i: int| 0 <= i < key@.len() && !white(#[trigger] key@[i])) <==> usable_key(
            Some(key),
        ) is Some,
        usable_key(None) is None,
{
}

/// Every attempt is counted as a request, and every one but the first as a retry; nothing else
/// is counted with it.
pub proof fn attempts_are_counted(metrics: JevMetrics, sends: nat)
    requires
        0 < sends,
        metrics.requests + sends <= usize::MAX,
        metrics.retries + sends <= usize::MAX,
    ensures
        ({
            let after = after_sends(metrics, sends);
            &&& after.requests == metrics.requests + sends
            &&& after.retries == metrics.retries + sends - 1
            &&& after.cache_hits == metrics.cache_hits
            &&& after.failures == metrics.failures
            &&& after.input_tokens == metrics.input_tokens
            &&& after.output_tokens == metrics.output_tokens
            &&& after.estimated_cost_nano_usd == metrics.estimated_cost_nano_usd
            &&& after.unpriced_requests == metrics.unpriced_requests
        }),
    decreases sends,
{
    if sends > 1 {
        attempts_are_counted(metrics, (sends - 1) as nat);
    } else {
        assert(after_sends(metrics, 0) == metrics);
    }
}

/// Metering an answer counts its tokens and either its cost or one answer without a price,
/// never both; it counts no request, retry, shared answer or failure.
pub proof fn an_answer_is_priced_or_not(
    metrics: JevMetrics,
    usage: Usage,
    pricing: Pricing,
    reported: Option<usize>,
    input: usize,
    output: usize,
    cost: usize,
)
    requires
        usage.input_tokens == Some(input as u64),
        usage.output_tokens == Some(output as u64),
        metrics.input_tokens + input <= usize::MAX,
        metrics.output_tokens + output <= usize::MAX,
        metrics.unpriced_requests < usize::MAX,
        metrics.estimated_cost_nano_usd + cost <= usize::MAX,
        match pricing {
            Pricing::ModelRate { model, nano_per_token } => nano_per_token <= usize::MAX
                && cost == input * nano_per_token,
            Pricing::ReportedCost => reported is Some ==> reported == Some(cost),
        },
    ensures
        ({
            let after = metered(metrics, Some(usage), pricing, reported);
            let priced = match pricing {
                Pricing::ModelRate { model, .. } => usage.model == Some(model@),
                Pricing::ReportedCost => reported is Some,
            };
            &&& after.input_tokens == metrics.input_tokens + input
            &&& after.output_tokens == metrics.output_tokens + output
            &&& after.estimated_cost_nano_usd == metrics.estimated_cost_nano_usd + (if priced {
                cost
            } else {
                0
            })
            &&& after.unpriced_requests == metrics.unpriced_requests + (if priced {
                0int
            } else {
                1
            })
            &&& after.requests == metrics.requests
            &&& after.retries == metrics.retries
            &&& after.cache_hits == metrics.cache_hits
            &&& after.failures == metrics.failures
        }),
{
    assert(input as u64 == input);
    assert(output as u64 == output);
}

/// An answer that says nothing of its use counts as one without a price, and as nothing else.
pub proof fn silent_answers_are_unpriced(
    metrics: JevMetrics,
    pricing: Pricing,
    reported: Option<usize>,
)
    requires
        metrics.unpriced_requests < usize::MAX,
    ensures
        metered(metrics, None, pricing, reported) == (JevMetrics {
            unpriced_requests: (metrics.unpriced_requests + 1) as usize,
            ..metrics
        }),
{
}

/// What an answer says of its own use: the model by its name, the tokens by their numbers,
/// the cost by its number.
pub proof fn use_is_read_by_name(
    response: Json,
    usage: Json,
    model: Seq<char>,
    input: nat,
    output: nat,
    cost: Seq<char>,
)
    requires
        holds(response, "model"@, Json::Text(model)),
        holds(response, "usage"@, usage),
        holds(usage, "input_tokens"@, Json::Number(decimal(input))),
        holds(usage, "output_tokens"@, Json::Number(decimal(output))),
        holds(usage, "cost"@, Json::Number(cost)),
        input <= u64::MAX,
        output <= u64::MAX,
    ensures
        usage_in(response).model == Some(model),
        usage_in(response).input_tokens == Some(input as u64),
        usage_in(response).output_tokens == Some(output as u64),
        usage_in(response).cost == double_bits(cost),
{
    members_are_told_by_name(response, "model"@);
    members_are_told_by_name(response, "usage"@);
    members_are_told_by_name(usage, "input_tokens"@);
    members_are_told_by_name(usage, "output_tokens"@);
    members_are_told_by_name(usage, "cost"@);
    decimals_are_counts(input);
    decimals_are_counts(output);
}

/// A decimal number is read as the count that it denotes.
proof fn decimals_are_counts(number: nat)
    requires
        number <= u64::MAX,
    ensures
        unsigned_of(Json::Number(decimal(number))) == Some(number as u64),
{
    decimal_denotes(number);
    let text = decimal(number);
    assert(digit(text[0]));
    assert(text.skip(0) =~= text);
}

/// An answer without a record of its use says nothing of it.
pub proof fn unreported_use_is_unknown(response: Json)
    requires
        lacks(response, "usage"@),
    ensures
        usage_in(response).input_tokens is None,
        usage_in(response).output_tokens is None,
        usage_in(response).cost is None,
{
    members_are_told_by_name(response, "usage"@);
    assert(member(Json::Null, "cost"@) is Null);
}

/// The models, keys and addresses that hold where none are given, and how much is done at a
/// time.
pub proof fn published_defaults()
    ensures
        TYPESAFE_DEFAULT_MODEL@ == "jev-1.13.0"@,
        OPENROUTER_DEFAULT_MODEL@ == "typesafe/jev-1.13"@,
        TYPESAFE_KEY@ == "TYPESAFE_API_KEY"@,
        OPENROUTER_KEY@ == "OPENROUTER_API_KEY"@,
        COMPATIBLE_KEY@ == "JEV_API_KEY"@,
        TypeSafe::DEFAULT_BASE_URL@ == "https://api.typesafe.ai"@,
        OpenRouter::DEFAULT_BASE_URL@ == "https://openrouter.ai"@,
        TypeSafe::DEFAULT_MODEL@ == "jev-1.13.0"@,
        OpenRouter::DEFAULT_MODEL@ == "typesafe/jev-1.13"@,
        PROCESS_MAX_CONCURRENCY == 8,
{
}

/// A pause that would take the whole minute fails its row alone.
pub proof fn long_pauses_fail_their_row(
    kind: ServerKind,
    function: Seq<char>,
    attempt: nat,
    status: u16,
    after: Option<u128>,
    jitter: nat,
    step: SendStep,
)
    requires
        follows(kind, function, attempt, status, after, jitter, step),
        attempt <= 2,
        status == 429,
        wait(attempt, after, jitter) >= 60_000_000_000,
    ensures
        step matches SendStep::Fail(error) && error@.kind is Execution && shown(error@)
            == "Execution error: "@ + ("Jev "@ + function + " HTTP "@ + decimal(status as nat)
            + " Retry-After exceeds its 60 second request deadline"@),
{
    assert((100 + jitter) * 1_000_000 == 100_000_000 + jitter * 1_000_000) by (nonlinear_arith);
    assert((200 + jitter) * 1_000_000 == 200_000_000 + jitter * 1_000_000) by (nonlinear_arith);
    assert((400 + jitter) * 1_000_000 == 400_000_000 + jitter * 1_000_000) by (nonlinear_arith);
}

/// What a response says of its own use is read from its text, where that is JSON.
pub proof fn use_is_read_from_the_text(raw: Seq<char>)
    ensures
        match rewritten(raw) {
            None => reported_usage(raw) is None,
            Some(text) => match received(text) {
                None => reported_usage(raw) is None,
                Some(response) => reported_usage(raw) == Some(usage_in(response)),
            },
        },
{
}

/// A cached response is charged for its bytes and the same for each; a failure for nothing.
pub proof fn cached_responses_are_charged(text: Seq<char>, other: Seq<char>)
    ensures
        response_bytes(Some(text)) - response_bytes(Some(other)) == encode_utf8(text).len()
            - encode_utf8(other).len(),
        response_bytes(Some(text)) == encode_utf8(text).len() + 3 * size_of::<usize>(),
        response_bytes(None) == 0,
        growth(0) == 4 * size_of::<(RequestKey, CachedRaw)>() + 64,
        forall|allocated: nat| allocated > 0 ==> #[trigger] growth(allocated) == allocated * 2,
{
}

/// The same where white space stands round the number.
pub proof fn spaced_seconds_are_waited(
    before: Seq<char>,
    seconds: nat,
    after: Seq<char>,
    now: u128,
)
    requires
        seconds <= u64::MAX,
        blank(before),
        blank(after),
    ensures
        asked_wait(before + decimal(seconds) + after, now) == Some(
            (seconds * 1_000_000_000) as u128,
        ),
{
    let text = decimal(seconds);
    decimal_denotes(seconds);
    assert(digit(text[0]));
    assert(digit(text.last()));
    trimming_takes_white_ends(before, text, after);
    assert(text.skip(0) =~= text);
    assert(unsigned_value(text) == Some(seconds));
}

/// The shortest time in nanoseconds before the next attempt.
pub open spec fn shortest(attempt: nat) -> int {
    if attempt == 0 {
        100_000_000
    } else if attempt == 1 {
        200_000_000
    } else {
        400_000_000
    }
}

/// What a busy server that asks for no time is given: another attempt, after the shortest time
/// or at most twice that.
pub proof fn patient_retries(
    kind: ServerKind,
    function: Seq<char>,
    attempt: nat,
    status: u16,
    step: SendStep,
)
    requires
        can_follow(kind, function, attempt, status, None, step),
        attempt <= 2,
        status == 429 || status == 529 && kind != ServerKind::OpenRouter,
    ensures
        step matches SendStep::Pause(nanos) && shortest(attempt) <= nanos <= 2 * shortest(attempt),
{
    let (after, jitter) = choose|after: Option<u128>, jitter: nat|
        jitter <= base_pause(attempt) && (None::<Seq<char>> is None ==> after is None) && (
        None::<Seq<char>> matches Some(text) ==> exists|now: u128|
            after == #[trigger] asked_wait(text, now)) && #[trigger] follows(
            kind,
            function,
            attempt,
            status,
            after,
            jitter,
            step,
        );
    busy_servers_are_asked_again(kind, function, attempt, status, after, jitter, step);
    assert((100 + jitter) * 1_000_000 == 100_000_000 + jitter * 1_000_000) by (nonlinear_arith);
    assert((200 + jitter) * 1_000_000 == 200_000_000 + jitter * 1_000_000) by (nonlinear_arith);
    assert((400 + jitter) * 1_000_000 == 400_000_000 + jitter * 1_000_000) by (nonlinear_arith);
}

/// A server that names a number of seconds is never asked again before they have passed, nor
/// much later.
pub proof fn asked_times_are_kept(
    kind: ServerKind,
    function: Seq<char>,
    attempt: nat,
    status: u16,
    seconds: nat,
    step: SendStep,
)
    requires
        can_follow(kind, function, attempt, status, Some(decimal(seconds)), step),
        seconds <= u64::MAX,
    ensures
        step matches SendStep::Pause(nanos) ==> nanos >= seconds * 1_000_000_000 && (nanos
            == seconds * 1_000_000_000 || nanos <= 2 * shortest(attempt)),
        seconds >= 60 && attempt <= 2 && status == 429 ==> step is Fail,
{
    let text = decimal(seconds);
    let header = Some(text);
    let (after, jitter) = choose|after: Option<u128>, jitter: nat|
        jitter <= base_pause(attempt) && (header is None ==> after is None) && (
        header matches Some(text) ==> exists|now: u128|
            after == #[trigger] asked_wait(text, now)) && #[trigger] follows(
            kind,
            function,
            attempt,
            status,
            after,
            jitter,
            step,
        );
    let now = choose|now: u128| after == #[trigger] asked_wait(text, now);
    named_seconds_are_waited(seconds, now);
    assert(seconds * 1_000_000_000 <= u64::MAX * 1_000_000_000);
    busy_servers_are_asked_again(kind, function, attempt, status, after, jitter, step);
    assert((100 + jitter) * 1_000_000 == 100_000_000 + jitter * 1_000_000) by (nonlinear_arith);
    assert((200 + jitter) * 1_000_000 == 200_000_000 + jitter * 1_000_000) by (nonlinear_arith);
    assert((400 + jitter) * 1_000_000 == 400_000_000 + jitter * 1_000_000) by (nonlinear_arith);
}

} // verus!
