//! The chat-completion dispatch logic.
//!
//! Everything the request handler decides is here: extracting the user
//! question and its key, choosing whether the cache is consulted, shaping
//! the forwarded request and its headers, assembling the cache-hit reply,
//! guarding and compressing the writeback, classifying send failures, and
//! the admission gate that caps concurrent upstream calls. The network,
//! store and timer plumbing around these decisions stays outside the
//! library and only hands plain values in and out.

use vstd::prelude::*;
use crate::api_model::{
    messages_view, ApiEndpoint, ChatChoice, ChatMessageJson, ChatRequestJson, ChatResponseJson,
    Usage, clone_messages,
};
use crate::codec::{compress_content, decoded_content_of, CodecError};
use crate::context_trim::{char_eq_ic, first_user_from};
use crate::fingerprint::{question_key, question_key_of};
use crate::json::JsonValue;
use crate::memory_cache::{pairs_view, spec_insert, MemoryCache};

verus! {

/// Compressed answers above this size are not cached.
pub const CACHE_MAX_SIZE_BYTES: usize = 5 * 1024 * 1024;

/// How a chat-completion request can fail before or at the upstream call.
#[derive(Clone, Copy, Debug, PartialEq, Eq, Structural)]
pub enum DispatchError {
    /// The request carries no user message.
    NoUserMessage,
    /// The store failed during the cache read.
    LookupFailed,
    /// No admission permit arrived within the wait budget.
    AdmissionTimeout,
    /// The endpoint list yielded nothing.
    NoEndpoint,
    /// The upstream connection could not be established.
    UpstreamConnect,
    /// The upstream call or body read timed out.
    UpstreamTimeout,
    /// The upstream call failed some other way.
    UpstreamOther,
    /// The upstream answered with a non-success status.
    UpstreamStatus(u16),
    /// The upstream body was neither strict nor coercible JSON.
    UpstreamParse,
    /// A cached blob failed to decompress or decode.
    Codec,
}

/// The HTTP status the proxy answers with for each failure.
pub open spec fn spec_status_code(e: DispatchError) -> u16 {
    match e {
        DispatchError::NoUserMessage => 400,
        DispatchError::LookupFailed => 500,
        DispatchError::AdmissionTimeout => 503,
        DispatchError::NoEndpoint => 503,
        DispatchError::UpstreamConnect => 502,
        DispatchError::UpstreamTimeout => 504,
        DispatchError::UpstreamOther => 502,
        DispatchError::UpstreamStatus(c) => if 100 <= c < 1000 {
            c
        } else {
            500
        },
        DispatchError::UpstreamParse => 500,
        DispatchError::Codec => 500,
    }
}

pub fn status_code_for(e: &DispatchError) -> (r: u16)
    ensures
        r == spec_status_code(*e),
{
    match e {
        DispatchError::NoUserMessage => 400,
        DispatchError::LookupFailed => 500,
        DispatchError::AdmissionTimeout => 503,
        DispatchError::NoEndpoint => 503,
        DispatchError::UpstreamConnect => 502,
        DispatchError::UpstreamTimeout => 504,
        DispatchError::UpstreamOther => 502,
        DispatchError::UpstreamStatus(c) => {
            let c = *c;
            if 100 <= c && c < 1000 {
                c
            } else {
                500
            }
        },
        DispatchError::UpstreamParse => 500,
        DispatchError::Codec => 500,
    }
}

/// Relies on uuid's `Uuid::new_v4` and its `Display` form: a fresh random
/// identifier printed in the 36-character hyphenated format; nothing more
/// can be promised of a random value.
#[verifier::external_body]
pub fn new_uuid_string() -> (r: String)
    ensures
        r@.len() == 36,
{
    uuid::Uuid::new_v4().to_string()
}

/// Relies on chrono's `Utc::now().timestamp()`: the current time in whole
/// seconds since the epoch; nothing is promised of the clock's reading.
#[verifier::external_body]
pub fn now_epoch_seconds() -> i64 {
    chrono::Utc::now().timestamp()
}

/// Whether `needle` matches `hay` at offset `k`, comparing with `eq_ic`
/// case-insensitively or exactly.
pub open spec fn matches_at(hay: Seq<char>, needle: Seq<char>, k: int, ic: bool) -> bool {
    &&& 0 <= k
    &&& k + needle.len() <= hay.len()
    &&& forall|j: int|
        0 <= j < needle.len() ==> (if ic {
            char_eq_ic(#[trigger] hay[k + j], needle[j])
        } else {
            hay[k + j] == needle[j]
        })
}

/// Whether `needle` occurs somewhere in `hay`.
pub open spec fn contains_sub(hay: Seq<char>, needle: Seq<char>, ic: bool) -> bool {
    exists|k: int| matches_at(hay, needle, k, ic)
}

/// Substring search over character lists.
fn contains_sub_exec(hay: &Vec<char>, needle: &Vec<char>, ic: bool) -> (r: bool)
    ensures
        r == contains_sub(hay@, needle@, ic),
{
    let n = hay.len();
    let m = needle.len();
    if m > n {
        proof {
            assert forall|k: int| !matches_at(hay@, needle@, k, ic) by {}
        }
        return false;
    }
    let mut k: usize = 0;
    while k <= n - m
        invariant
            m <= n,
            n == hay@.len(),
            m == needle@.len(),
            k <= n - m + 1,
            forall|x: int| 0 <= x < k ==> !matches_at(hay@, needle@, x, ic),
        decreases n - m + 1 - k,
    {
        let mut j: usize = 0;
        let mut all = true;
        while j < m
            invariant
                j <= m,
                k + m <= n,
                n == hay@.len(),
                m == needle@.len(),
                all == (forall|y: int|
                    0 <= y < j ==> (if ic {
                        char_eq_ic(#[trigger] hay@[k + y], needle@[y])
                    } else {
                        hay@[k + y] == needle@[y]
                    })),
            decreases m - j,
        {
            let ok = if ic {
                crate::context_trim::char_eq_ic_exec(hay[k + j], needle[j])
            } else {
                hay[k + j] == needle[j]
            };
            if !ok {
                all = false;
            }
            j += 1;
        }
        if all {
            proof {
                assert(matches_at(hay@, needle@, k as int, ic));
            }
            return true;
        }
        proof {
            assert(!matches_at(hay@, needle@, k as int, ic));
        }
        k += 1;
    }
    proof {
        assert forall|x: int| !matches_at(hay@, needle@, x, ic) by {
            if 0 <= x <= n - m {
            }
        }
    }
    false
}

/// Substring search in a string, exact or up to ASCII case.
pub fn str_contains(hay: &str, needle: &str, ic: bool) -> (r: bool)
    ensures
        r == contains_sub(hay@, needle@, ic),
{
    let h = crate::tokens::str_chars(hay);
    let nd = crate::tokens::str_chars(needle);
    contains_sub_exec(&h, &nd, ic)
}

/// Failure class of a failed send, from the transport's own verdict.
pub open spec fn spec_classify_send_error(is_connect: bool, is_timeout: bool) -> DispatchError {
    if is_connect {
        DispatchError::UpstreamConnect
    } else if is_timeout {
        DispatchError::UpstreamTimeout
    } else {
        DispatchError::UpstreamOther
    }
}

pub fn classify_send_error(is_connect: bool, is_timeout: bool) -> (r: DispatchError)
    ensures
        r == spec_classify_send_error(is_connect, is_timeout),
{
    if is_connect {
        DispatchError::UpstreamConnect
    } else if is_timeout {
        DispatchError::UpstreamTimeout
    } else {
        DispatchError::UpstreamOther
    }
}

/// Failure class read off an error message, for transports that only
/// hand back text.
pub open spec fn spec_classify_error_message(msg: Seq<char>) -> DispatchError {
    if contains_sub(msg, "connect"@, false) || contains_sub(msg, "connection"@, false) {
        DispatchError::UpstreamConnect
    } else if contains_sub(msg, "timeout"@, false) {
        DispatchError::UpstreamTimeout
    } else {
        DispatchError::UpstreamOther
    }
}

pub fn classify_error_message(msg: &str) -> (r: DispatchError)
    ensures
        r == spec_classify_error_message(msg@),
{
    if str_contains(msg, "connect", false) || str_contains(msg, "connection", false) {
        DispatchError::UpstreamConnect
    } else if str_contains(msg, "timeout", false) {
        DispatchError::UpstreamTimeout
    } else {
        DispatchError::UpstreamOther
    }
}

/// The question key of a request: the fingerprint of the first user
/// message's content; absent user message, absent key.
pub fn question_key_for_request(messages: &Vec<ChatMessageJson>) -> (r: Result<
    String,
    DispatchError,
>)
    ensures
        ({
            let mv = messages_view(messages@);
            let u = first_user_from(mv, 0);
            match r {
                Ok(k) => u < mv.len() && k@ == question_key_of(mv[u].content),
                Err(e) => e == DispatchError::NoUserMessage && u == mv.len(),
            }
        }),
{
    let u = crate::context_trim::find_first_user(messages, 0);
    if u < messages.len() {
        Ok(question_key(messages[u].content.as_str()))
    } else {
        Err(DispatchError::NoUserMessage)
    }
}

/// Whether the request bypasses the cache entirely.
pub fn should_bypass_cache(payload: &ChatRequestJson) -> (r: bool)
    ensures
        r == payload.stream,
{
    payload.stream
}

/// The upstream URL for a relative path: a single slash joins base and
/// path whether or not the base already ends with one.
pub open spec fn joined_url(base: Seq<char>, path: Seq<char>) -> Seq<char> {
    if base.len() > 0 && base.last() == '/' {
        base + path
    } else {
        base + seq!['/'] + path
    }
}

pub fn build_target_url(base: &str, path: &str) -> (r: String)
    ensures
        r@ == joined_url(base@, path@),
{
    let n = base.unicode_len();
    let mut r = base.to_owned();
    if n == 0 || !(base.get_char(n - 1) == '/') {
        r = crate::context_trim::push_char(r, '/');
        proof {
            assert(r@ =~= base@ + seq!['/']);
        }
    }
    r.append(path);
    proof {
        if base@.len() > 0 && base@.last() == '/' {
            assert(r@ =~= base@ + path@);
        } else {
            assert(r@ =~= base@ + seq!['/'] + path@);
        }
    }
    r
}

/// Header names that are never forwarded upstream.
pub open spec fn header_dropped(name: Seq<char>) -> bool {
    contains_sub(name, "connection"@, true) || contains_sub(name, "host"@, true) || contains_sub(
        name,
        "content-length"@,
        true,
    )
}

/// View of a header list.
pub open spec fn headers_view(s: Seq<(String, String)>) -> Seq<(Seq<char>, Seq<char>)> {
    s.map_values(|p: (String, String)| (p.0@, p.1@))
}

pub broadcast proof fn lemma_headers_view_index(s: Seq<(String, String)>, i: int)
    requires
        0 <= i < s.len(),
    ensures
        #[trigger] headers_view(s)[i] == (s[i].0@, s[i].1@),
{
}

/// The forwardable client headers, in order.
pub open spec fn spec_kept_headers(s: Seq<(Seq<char>, Seq<char>)>) -> Seq<(Seq<char>, Seq<char>)>
    decreases s.len(),
{
    if s.len() == 0 {
        Seq::empty()
    } else {
        spec_kept_headers(s.drop_last()) + if header_dropped(s.last().0) {
            Seq::empty()
        } else {
            seq![s.last()]
        }
    }
}

/// Store a header: replace the value of the first pair under the same
/// name, else append the pair.
pub open spec fn hput(s: Seq<(Seq<char>, Seq<char>)>, k: Seq<char>, v: Seq<char>) -> Seq<
    (Seq<char>, Seq<char>),
>
    decreases s.len(),
{
    if s.len() == 0 {
        seq![(k, v)]
    } else if s[0].0 == k {
        seq![(s[0].0, v)] + s.drop_first()
    } else {
        seq![s[0]] + hput(s.drop_first(), k, v)
    }
}

/// All configured headers stored over the kept client headers, first one
/// first.
pub open spec fn hput_all(
    s: Seq<(Seq<char>, Seq<char>)>,
    api: Seq<(Seq<char>, Seq<char>)>,
) -> Seq<(Seq<char>, Seq<char>)>
    decreases api.len(),
{
    if api.len() == 0 {
        s
    } else {
        hput_all(hput(s, api[0].0, api[0].1), api.drop_first())
    }
}

/// What the dispatcher forwards: the client headers without the dropped
/// names, with the configured headers merged on top.
pub open spec fn spec_projected_headers(
    client: Seq<(Seq<char>, Seq<char>)>,
    api: Seq<(Seq<char>, Seq<char>)>,
) -> Seq<(Seq<char>, Seq<char>)> {
    hput_all(spec_kept_headers(client), api)
}

/// Projects the headers for the upstream call.
pub fn project_headers(client: &Vec<(String, String)>, api: &Vec<(String, String)>) -> (r: Vec<
    (String, String),
>)
    ensures
        headers_view(r@) == spec_projected_headers(headers_view(client@), headers_view(api@)),
{
    broadcast use lemma_headers_view_index;

    let ghost cv = headers_view(client@);
    let mut kept: Vec<(String, String)> = Vec::new();
    let n = client.len();
    let mut i: usize = 0;
    while i < n
        invariant
            i <= n,
            n == client@.len(),
            cv == headers_view(client@),
            headers_view(kept@) =~= spec_kept_headers(cv.subrange(0, i as int)),
        decreases n - i,
    {
        proof {
            assert(cv.subrange(0, i + 1).drop_last() =~= cv.subrange(0, i as int));
            assert(cv.subrange(0, i + 1).last() == cv[i as int]);
        }
        let name = &client[i].0;
        let dropped = str_contains(name.as_str(), "connection", true) || str_contains(
            name.as_str(),
            "host",
            true,
        ) || str_contains(name.as_str(), "content-length", true);
        if !dropped {
            let ghost prev = kept@;
            kept.push(
                (
                    crate::memory_cache::clone_string(&client[i].0),
                    crate::memory_cache::clone_string(&client[i].1),
                ),
            );
            proof {
                assert forall|j: int|
                    0 <= j < kept@.len() implies #[trigger] headers_view(kept@)[j] == (
                spec_kept_headers(cv.subrange(0, i as int)) + seq![cv[i as int]])[j] by {
                    assert(headers_view(kept@)[j] == (kept@[j].0@, kept@[j].1@));
                    if j < kept@.len() - 1 {
                        assert(kept@[j] == prev[j]);
                        assert(headers_view(prev)[j] == (prev[j].0@, prev[j].1@));
                    }
                }
                assert(headers_view(kept@) =~= spec_kept_headers(cv.subrange(0, i as int))
                    + seq![cv[i as int]]);
            }
        }
        i += 1;
    }
    proof {
        assert(cv.subrange(0, n as int) =~= cv);
    }

    let ghost av = headers_view(api@);
    let m = api.len();
    proof {
        assert(av.subrange(0, m as int) =~= av);
    }
    let mut a: usize = 0;
    while a < m
        invariant
            a <= m,
            m == api@.len(),
            av == headers_view(api@),
            hput_all(spec_kept_headers(cv), av) == hput_all(
                headers_view(kept@),
                av.subrange(a as int, m as int),
            ),
        decreases m - a,
    {
        let ghost before = headers_view(kept@);
        let ghost rest = av.subrange(a as int, m as int);
        header_put(
            &mut kept,
            crate::memory_cache::clone_string(&api[a].0),
            crate::memory_cache::clone_string(&api[a].1),
        );
        a += 1;
        proof {
            assert(rest[0] == av[a - 1]);
            assert(rest.drop_first() =~= av.subrange(a as int, m as int));
            assert(hput_all(before, rest) == hput_all(
                hput(before, av[a - 1].0, av[a - 1].1),
                av.subrange(a as int, m as int),
            ));
        }
    }
    proof {
        assert(av.subrange(m as int, m as int) =~= Seq::<(Seq<char>, Seq<char>)>::empty());
    }
    kept
}

/// Stores one header into the list.
fn header_put(headers: &mut Vec<(String, String)>, k: String, v: String)
    ensures
        headers_view(final(headers)@) == hput(headers_view(old(headers)@), k@, v@),
{
    broadcast use lemma_headers_view_index;

    let ghost before = headers_view(old(headers)@);
    let n = headers.len();
    let mut i: usize = 0;
    proof {
        assert(before.subrange(0, n as int) =~= before);
        assert(hput(before, k@, v@) == before.subrange(0, 0) + hput(
            before.subrange(0, n as int),
            k@,
            v@,
        ));
    }
    while i < n
        invariant
            i <= n,
            n == headers@.len(),
            headers@ == old(headers)@,
            before == headers_view(headers@),
            hput(before, k@, v@) == before.subrange(0, i as int) + hput(
                before.subrange(i as int, n as int),
                k@,
                v@,
            ),
        decreases n - i,
    {
        let ghost tail = before.subrange(i as int, n as int);
        proof {
            assert(tail[0] == before[i as int]);
            assert(tail.drop_first() =~= before.subrange(i + 1, n as int));
        }
        if crate::memory_cache::str_eq(headers[i].0.as_str(), k.as_str()) {
            let ghost prev = headers@;
            headers[i] = (k, v);
            proof {
                let s = headers_view(headers@);
                let t = hput(before, k@, v@);
                assert(before[i as int].0 == k@);
                assert(hput(tail, k@, v@) =~= seq![(tail[0].0, v@)] + tail.drop_first());
                assert forall|x: int| 0 <= x < s.len() implies s[x] == t[x] by {
                    assert(headers_view(headers@)[x] == (headers@[x].0@, headers@[x].1@));
                    if x != i as int {
                        assert(headers@[x] == prev[x]);
                        assert(headers_view(prev)[x] == (prev[x].0@, prev[x].1@));
                    }
                }
                assert(s.len() == t.len());
                assert(s =~= t);
            }
            return ;
        }
        proof {
            assert(before[i as int].0 != k@);
            assert(hput(tail, k@, v@) == seq![tail[0]] + hput(tail.drop_first(), k@, v@));
            assert(before.subrange(0, i + 1) =~= before.subrange(0, i as int) + seq![
                before[i as int],
            ]);
            assert(hput(before, k@, v@) =~= before.subrange(0, i + 1) + hput(
                before.subrange(i + 1, n as int),
                k@,
                v@,
            ));
        }
        i += 1;
    }
    let ghost prev = headers@;
    headers.push((k, v));
    proof {
        let s = headers_view(headers@);
        let t = hput(before, k@, v@);
        assert(before.subrange(n as int, n as int).len() == 0);
        assert(hput(before.subrange(n as int, n as int), k@, v@) =~= seq![(k@, v@)]);
        assert forall|x: int| 0 <= x < s.len() implies s[x] == t[x] by {
            assert(headers_view(headers@)[x] == (headers@[x].0@, headers@[x].1@));
            assert(t =~= before.subrange(0, n as int) + seq![(k@, v@)]);
            if x < s.len() - 1 {
                assert(headers@[x] == prev[x]);
                assert(headers_view(prev)[x] == (prev[x].0@, prev[x].1@));
            }
        }
        assert(s.len() == t.len()) by {
            assert(t =~= before.subrange(0, n as int) + seq![(k@, v@)]);
        }
        assert(s =~= t);
    }
}

/// The forwarded payload: the request with the endpoint's model override
/// and the configured thinking flag applied.
pub fn apply_endpoint_overrides(
    payload: &ChatRequestJson,
    endpoint: &ApiEndpoint,
    enable_thinking: Option<bool>,
) -> (r: ChatRequestJson)
    ensures
        r@.messages == payload@.messages,
        r@.model == (match endpoint@.model {
            Some(m) => m,
            None => payload@.model,
        }),
        r@.temperature_milli == payload@.temperature_milli,
        r@.max_tokens == payload@.max_tokens,
        r@.stream == payload@.stream,
        r@.enable_thinking == (if enable_thinking is Some {
            enable_thinking
        } else {
            payload@.enable_thinking
        }),
{
    let model = match &endpoint.model {
        Some(m) => crate::memory_cache::clone_string(m),
        None => crate::memory_cache::clone_string(&payload.model),
    };
    let thinking = match enable_thinking {
        Some(b) => Some(b),
        None => payload.enable_thinking,
    };
    ChatRequestJson {
        model,
        messages: clone_messages(&payload.messages),
        temperature_milli: payload.temperature_milli,
        max_tokens: payload.max_tokens,
        stream: payload.stream,
        enable_thinking: thinking,
    }
}

/// Assembles the reply served on a cache hit: a fresh id, the request's
/// model, one choice carrying the recovered content, zeroed usage, and
/// the cached fingerprint.
pub fn process_cached_response(compressed: &Vec<u8>, model: &str) -> (r: Result<
    ChatResponseJson,
    DispatchError,
>)
    ensures
        match r {
            Ok(resp) => {
                &&& decoded_content_of(compressed@) matches Ok(content)
                    && resp@.choices[0].message.content == content
                &&& resp@.id.len() == 36
                &&& resp@.object == "chat.completion"@
                &&& resp@.model == model@
                &&& resp@.choices.len() == 1
                &&& resp@.choices[0].finish_reason == "stop_from_cache"@
                &&& resp@.choices[0].message.role == "assistant"@
                &&& resp@.prompt_tokens == 0
                &&& resp@.completion_tokens == 0
                &&& resp@.total_tokens == 0
                &&& resp@.system_fingerprint == "cached"@
            },
            Err(e) => e == DispatchError::Codec && decoded_content_of(compressed@) is Err,
        },
{
    broadcast use crate::api_model::lemma_choices_view_index;

    match crate::codec::decompress_content(compressed) {
        Ok(content) => {
            let choice = ChatChoice {
                index: 0,
                logprobs: None,
                finish_reason: "stop_from_cache".to_owned(),
                message: ChatMessageJson { role: "assistant".to_owned(), content },
            };
            let mut choices: Vec<ChatChoice> = Vec::new();
            choices.push(choice);
            let resp = ChatResponseJson {
                id: new_uuid_string(),
                object: "chat.completion".to_owned(),
                created: now_epoch_seconds(),
                model: model.to_owned(),
                choices,
                usage: Usage { prompt_tokens: 0, completion_tokens: 0, total_tokens: 0 },
                stats: JsonValue::Null,
                system_fingerprint: "cached".to_owned(),
            };
            Ok(resp)
        },
        Err(_) => Err(DispatchError::Codec),
    }
}

/// Whether a reply is written back: only non-streaming replies with a
/// non-empty first choice whose compressed form fits the size cap.
pub open spec fn spec_should_cache(skip_cache: bool, resp: crate::api_model::ResponseV) -> bool {
    &&& !skip_cache
    &&& resp.choices.len() > 0
    &&& resp.choices[0].message.content.len() > 0
    &&& crate::codec::compressed_of(
        vstd::utf8::encode_utf8(resp.choices[0].message.content),
    ).len() <= CACHE_MAX_SIZE_BYTES
}

/// Compresses the first choice for the writeback, or decides against
/// caching: streaming replies, empty replies and oversized blobs are
/// skipped.
pub fn writeback_plan(response: &ChatResponseJson, skip_cache: bool) -> (r: Option<Vec<u8>>)
    ensures
        (r is Some) == spec_should_cache(skip_cache, response@),
        r matches Some(blob) ==> blob@ == crate::codec::compressed_of(
            vstd::utf8::encode_utf8(response@.choices[0].message.content),
        ) && decoded_content_of(blob@) == Ok::<Seq<char>, CodecError>(
            response@.choices[0].message.content,
        ),
{
    broadcast use crate::api_model::lemma_choices_view_index;

    if skip_cache {
        return None;
    }
    if response.choices.len() == 0 {
        return None;
    }
    let content = &response.choices[0].message.content;
    if content.as_str().unicode_len() == 0 {
        return None;
    }
    let blob = compress_content(content.as_str());
    if blob.len() > CACHE_MAX_SIZE_BYTES {
        return None;
    }
    Some(blob)
}

/// Inserts a fresh answer into the memory cache and drains a batch for
/// persistence once enough writes are staged.
pub fn perform_writeback(
    cache: &mut MemoryCache,
    question_key: String,
    blob: Vec<u8>,
    batch_write_size: usize,
) -> (r: Option<Vec<(String, Vec<u8>)>>)
    requires
        old(cache).wf(),
    ensures
        final(cache).wf(),
        ({
            let stepped = spec_insert(
                old(cache).entries_view(),
                old(cache).pending_view(),
                old(cache).spec_max_items() as int,
                question_key@,
                blob@,
            );
            &&& final(cache).entries_view() == stepped.0
            &&& if stepped.1.len() >= batch_write_size {
                r matches Some(batch) && pairs_view(batch@) == stepped.1.subrange(
                    0,
                    batch@.len() as int,
                ) && batch@.len() == vstd::math::min(
                    batch_write_size as int,
                    stepped.1.len() as int,
                ) && final(cache).pending_view() == stepped.1.subrange(
                    batch@.len() as int,
                    stepped.1.len() as int,
                )
            } else {
                r is None && final(cache).pending_view() == stepped.1
            }
        }),
{
    cache.insert(question_key, blob);
    if cache.pending_count() >= batch_write_size {
        Some(cache.take_pending_writes(batch_write_size))
    } else {
        None
    }
}

/// Streaming bypass: a streaming request reads nothing from the cache
/// and writes nothing back, whatever the reply holds.
pub proof fn lemma_streaming_bypass(payload: ChatRequestJson, resp: crate::api_model::ResponseV)
    requires
        payload.stream,
    ensures
        !spec_should_cache(payload.stream, resp),
{
}

/// One step of the admission gate.
pub open spec fn spec_try_acquire(in_flight: int, max: int) -> (bool, int) {
    if in_flight < max {
        (true, in_flight + 1)
    } else {
        (false, in_flight)
    }
}

/// `k` acquisitions in a row from an empty gate.
pub open spec fn spec_acquire_n(max: int, k: int) -> int
    decreases k,
{
    if k <= 0 {
        0
    } else {
        spec_try_acquire(spec_acquire_n(max, k - 1), max).1
    }
}

/// The admission gate: at most `max_permits` calls hold a permit at once.
pub struct AdmissionGate {
    max_permits: usize,
    in_flight: usize,
}

impl AdmissionGate {
    pub closed spec fn spec_max(&self) -> usize {
        self.max_permits
    }

    pub closed spec fn spec_in_flight(&self) -> usize {
        self.in_flight
    }

    /// Never more permits out than the cap.
    pub open spec fn wf(&self) -> bool {
        self.spec_in_flight() <= self.spec_max()
    }

    pub fn new(max_permits: usize) -> (r: Self)
        ensures
            r.wf(),
            r.spec_max() == max_permits,
            r.spec_in_flight() == 0,
    {
        AdmissionGate { max_permits, in_flight: 0 }
    }

    /// Takes a permit when one is free.
    pub fn try_acquire(&mut self) -> (r: bool)
        requires
            old(self).wf(),
        ensures
            final(self).wf(),
            final(self).spec_max() == old(self).spec_max(),
            (r, final(self).spec_in_flight() as int) == spec_try_acquire(
                old(self).spec_in_flight() as int,
                old(self).spec_max() as int,
            ),
    {
        if self.in_flight < self.max_permits {
            self.in_flight = self.in_flight + 1;
            true
        } else {
            false
        }
    }

    /// Returns a permit.
    pub fn release(&mut self)
        requires
            old(self).wf(),
            old(self).spec_in_flight() > 0,
        ensures
            final(self).wf(),
            final(self).spec_max() == old(self).spec_max(),
            final(self).spec_in_flight() == old(self).spec_in_flight() - 1,
    {
        self.in_flight = self.in_flight - 1;
    }

    pub fn available_permits(&self) -> (r: usize)
        requires
            self.wf(),
        ensures
            r == self.spec_max() - self.spec_in_flight(),
    {
        self.max_permits - self.in_flight
    }
}

/// Admission cap: however many acquisitions are attempted, at most
/// `max` permits are ever out, the `max+1`-th concurrent attempt fails,
/// and a refused admission maps to the busy status.
pub proof fn lemma_admission_cap(max: int, k: int)
    requires
        max >= 0,
        k >= 0,
    ensures
        spec_acquire_n(max, k) == vstd::math::min(k, max),
        k >= max ==> spec_try_acquire(spec_acquire_n(max, k), max).0 == false,
        spec_status_code(DispatchError::AdmissionTimeout) == 503,
    decreases k,
{
    if k > 0 {
        lemma_admission_cap(max, k - 1);
    }
}

} // verus!
