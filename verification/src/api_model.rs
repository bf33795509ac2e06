//! Request and response shapes of the chat-completion surface, and the
//! weighted choice among upstream endpoints.
//!
//! Temperatures are held in thousandths (`100` stands for the default of
//! one tenth), so that the proxy's logic stays in integer arithmetic; the
//! boundary that parses and serializes JSON converts.

use vstd::prelude::*;
use crate::json::JsonValue;

verus! {

/// One chat message.
pub struct ChatMessageJson {
    pub role: String,
    pub content: String,
}

pub struct MessageV {
    pub role: Seq<char>,
    pub content: Seq<char>,
}

impl View for ChatMessageJson {
    type V = MessageV;

    open spec fn view(&self) -> MessageV {
        MessageV { role: self.role@, content: self.content@ }
    }
}

pub open spec fn messages_view(s: Seq<ChatMessageJson>) -> Seq<MessageV> {
    s.map_values(|m: ChatMessageJson| m@)
}

pub broadcast proof fn lemma_messages_view_index(s: Seq<ChatMessageJson>, i: int)
    requires
        0 <= i < s.len(),
    ensures
        #[trigger] messages_view(s)[i] == s[i]@,
{
}

/// A chat-completion request body.
pub struct ChatRequestJson {
    pub model: String,
    pub messages: Vec<ChatMessageJson>,
    pub temperature_milli: i32,
    pub max_tokens: i32,
    pub stream: bool,
    pub enable_thinking: Option<bool>,
}

pub struct RequestV {
    pub model: Seq<char>,
    pub messages: Seq<MessageV>,
    pub temperature_milli: i32,
    pub max_tokens: i32,
    pub stream: bool,
    pub enable_thinking: Option<bool>,
}

impl View for ChatRequestJson {
    type V = RequestV;

    open spec fn view(&self) -> RequestV {
        RequestV {
            model: self.model@,
            messages: messages_view(self.messages@),
            temperature_milli: self.temperature_milli,
            max_tokens: self.max_tokens,
            stream: self.stream,
            enable_thinking: self.enable_thinking,
        }
    }
}

/// Token usage counters of a reply.
pub struct Usage {
    pub prompt_tokens: i32,
    pub completion_tokens: i32,
    pub total_tokens: i32,
}

/// One choice of a reply.
pub struct ChatChoice {
    pub index: i32,
    pub logprobs: Option<JsonValue>,
    pub finish_reason: String,
    pub message: ChatMessageJson,
}

pub struct ChoiceV {
    pub index: i32,
    pub has_logprobs: bool,
    pub finish_reason: Seq<char>,
    pub message: MessageV,
}

impl View for ChatChoice {
    type V = ChoiceV;

    open spec fn view(&self) -> ChoiceV {
        ChoiceV {
            index: self.index,
            has_logprobs: self.logprobs is Some,
            finish_reason: self.finish_reason@,
            message: self.message@,
        }
    }
}

pub open spec fn choices_view(s: Seq<ChatChoice>) -> Seq<ChoiceV> {
    s.map_values(|c: ChatChoice| c@)
}

pub broadcast proof fn lemma_choices_view_index(s: Seq<ChatChoice>, i: int)
    requires
        0 <= i < s.len(),
    ensures
        #[trigger] choices_view(s)[i] == s[i]@,
{
}

/// A chat-completion reply body.
pub struct ChatResponseJson {
    pub id: String,
    pub object: String,
    pub created: i64,
    pub model: String,
    pub choices: Vec<ChatChoice>,
    pub usage: Usage,
    pub stats: JsonValue,
    pub system_fingerprint: String,
}

pub struct ResponseV {
    pub id: Seq<char>,
    pub object: Seq<char>,
    pub created: i64,
    pub model: Seq<char>,
    pub choices: Seq<ChoiceV>,
    pub prompt_tokens: i32,
    pub completion_tokens: i32,
    pub total_tokens: i32,
    pub system_fingerprint: Seq<char>,
}

impl View for ChatResponseJson {
    type V = ResponseV;

    open spec fn view(&self) -> ResponseV {
        ResponseV {
            id: self.id@,
            object: self.object@,
            created: self.created,
            model: self.model@,
            choices: choices_view(self.choices@),
            prompt_tokens: self.usage.prompt_tokens,
            completion_tokens: self.usage.completion_tokens,
            total_tokens: self.usage.total_tokens,
            system_fingerprint: self.system_fingerprint@,
        }
    }
}

/// One configured upstream endpoint. Weight zero excludes it from the
/// weighted choice; `version` is stamped onto answers it produces.
pub struct ApiEndpoint {
    pub url: String,
    pub weight: u8,
    pub model: Option<String>,
    pub version: u8,
}

pub struct EndpointV {
    pub url: Seq<char>,
    pub weight: u8,
    pub model: Option<Seq<char>>,
    pub version: u8,
}

impl View for ApiEndpoint {
    type V = EndpointV;

    open spec fn view(&self) -> EndpointV {
        EndpointV {
            url: self.url@,
            weight: self.weight,
            model: match self.model {
                Some(m) => Some(m@),
                None => None,
            },
            version: self.version,
        }
    }
}

pub open spec fn endpoints_view(s: Seq<ApiEndpoint>) -> Seq<EndpointV> {
    s.map_values(|e: ApiEndpoint| e@)
}

pub broadcast proof fn lemma_endpoints_view_index(s: Seq<ApiEndpoint>, i: int)
    requires
        0 <= i < s.len(),
    ensures
        #[trigger] endpoints_view(s)[i] == s[i]@,
{
}

/// Copy of a message.
pub fn clone_message(m: &ChatMessageJson) -> (r: ChatMessageJson)
    ensures
        r@ == m@,
{
    ChatMessageJson {
        role: crate::memory_cache::clone_string(&m.role),
        content: crate::memory_cache::clone_string(&m.content),
    }
}

/// Copy of a message list.
pub fn clone_messages(ms: &Vec<ChatMessageJson>) -> (r: Vec<ChatMessageJson>)
    ensures
        messages_view(r@) == messages_view(ms@),
{
    broadcast use lemma_messages_view_index;

    let mut r: Vec<ChatMessageJson> = Vec::new();
    let n = ms.len();
    let mut i: usize = 0;
    while i < n
        invariant
            i <= n,
            n == ms@.len(),
            r@.len() == i,
            forall|j: int| 0 <= j < i ==> #[trigger] messages_view(r@)[j] == messages_view(ms@)[j],
        decreases n - i,
    {
        let ghost prev = r@;
        r.push(clone_message(&ms[i]));
        i += 1;
        proof {
            assert forall|j: int|
                0 <= j < i implies #[trigger] messages_view(r@)[j] == messages_view(ms@)[j] by {
                assert(messages_view(r@)[j] == r@[j]@);
                assert(messages_view(ms@)[j] == ms@[j]@);
                if j < i - 1 {
                    assert(r@[j] == prev[j]);
                    assert(messages_view(prev)[j] == prev[j]@);
                }
            }
        }
    }
    proof {
        assert(messages_view(r@) =~= messages_view(ms@));
    }
    r
}

/// Copy of an endpoint.
pub fn clone_endpoint(e: &ApiEndpoint) -> (r: ApiEndpoint)
    ensures
        r@ == e@,
{
    ApiEndpoint {
        url: crate::memory_cache::clone_string(&e.url),
        weight: e.weight,
        model: match &e.model {
            Some(m) => Some(crate::memory_cache::clone_string(m)),
            None => None,
        },
        version: e.version,
    }
}

/// Sum of the weights of a weight list.
pub open spec fn total_weight(ws: Seq<u8>) -> int
    decreases ws.len(),
{
    if ws.len() == 0 {
        0
    } else {
        total_weight(ws.drop_last()) + ws.last()
    }
}

/// Relies on rand::random_range over `0..n`: a value below `n`, uniformly
/// distributed; nothing more can be promised of a random draw.
#[verifier::external_body]
fn rand_below(n: u64) -> (r: u64)
    requires
        n > 0,
    ensures
        r < n,
{
    rand::random_range(0..n)
}

/// The index whose cumulative weight interval contains `r`: the weighted
/// pick over a distribution whose draw was `r`.
pub fn pick_weighted(weights: &Vec<u8>, r: u64) -> (i: usize)
    requires
        weights@.len() * 255 < u64::MAX,
        (r as int) < total_weight(weights@),
    ensures
        i < weights@.len(),
        total_weight(weights@.subrange(0, i as int)) <= r as int,
        (r as int) < total_weight(weights@.subrange(0, i as int + 1)),
        weights@[i as int] > 0,
    decreases weights@.len(),
{
    proof {
        lemma_total_weight_bounds(weights@);
    }
    let n = weights.len();
    let mut acc: u64 = 0;
    let mut i: usize = 0;
    while i < n
        invariant
            i <= n,
            n == weights@.len(),
            n * 255 < u64::MAX,
            acc == total_weight(weights@.subrange(0, i as int)),
            acc <= r,
            (r as int) < total_weight(weights@),
            acc <= 255 * i,
        decreases n - i,
    {
        proof {
            assert(weights@.subrange(0, i + 1).drop_last() =~= weights@.subrange(0, i as int));
            assert(weights@.subrange(0, i + 1).last() == weights@[i as int]);
            lemma_total_weight_bounds(weights@.subrange(0, i as int));
            assert(acc + weights@[i as int] <= 255 * (i + 1) <= 255 * n) by {
                assert(weights@[i as int] <= 255);
            }
        }
        let next = acc + weights[i] as u64;
        if r < next {
            proof {
                assert(total_weight(weights@.subrange(0, i + 1)) == acc + weights@[i as int]);
            }
            return i;
        }
        acc = next;
        i += 1;
    }
    proof {
        assert(weights@.subrange(0, n as int) =~= weights@);
        assert(false);
    }
    0
}

/// Weights are bytes, so a cumulative sum stays below `255 * len + 1`.
proof fn lemma_total_weight_bounds(ws: Seq<u8>)
    ensures
        0 <= total_weight(ws) <= 255 * ws.len(),
    decreases ws.len(),
{
    if ws.len() > 0 {
        lemma_total_weight_bounds(ws.drop_last());
    }
}

/// Picks an endpoint: `None` on an empty list; the first endpoint when no
/// weight is positive; otherwise one of the positively weighted endpoints,
/// chosen by a weighted random draw.
pub fn select_api_endpoint(endpoints: &Vec<ApiEndpoint>) -> (r: Option<ApiEndpoint>)
    requires
        endpoints@.len() * 255 < u64::MAX,
    ensures
        (r is Some) <==> endpoints@.len() > 0,
        endpoints@.len() > 0 && (forall|i: int|
            0 <= i < endpoints@.len() ==> #[trigger] endpoints@[i]@.weight == 0) ==> r.unwrap()@
            == endpoints@[0]@,
        r matches Some(e) ==> (e@ == endpoints@[0]@ || exists|i: int|
            0 <= i < endpoints@.len() && #[trigger] endpoints@[i]@ == e@ && e@.weight > 0),
        (exists|i: int| 0 <= i < endpoints@.len() && #[trigger] endpoints@[i]@.weight > 0)
            ==> (r matches Some(e) && e@.weight > 0),
{
    broadcast use lemma_endpoints_view_index;

    if endpoints.len() == 0 {
        return None;
    }
    let n = endpoints.len();
    let mut candidates: Vec<usize> = Vec::new();
    let mut weights: Vec<u8> = Vec::new();
    let mut i: usize = 0;
    while i < n
        invariant
            i <= n,
            n == endpoints@.len(),
            candidates@.len() == weights@.len(),
            candidates@.len() <= i,
            forall|j: int|
                0 <= j < candidates@.len() ==> #[trigger] candidates@[j] < i
                    && endpoints@[candidates@[j] as int]@.weight > 0,
            forall|j: int|
                0 <= j < weights@.len() ==> #[trigger] weights@[j]
                    == endpoints@[candidates@[j] as int]@.weight,
            forall|j: int|
                0 <= j < i && #[trigger] endpoints@[j]@.weight > 0 ==> exists|k: int|
                    0 <= k < candidates@.len() && #[trigger] candidates@[k] == j,
        decreases n - i,
    {
        let ghost prev_candidates = candidates@;
        let pushed = endpoints[i].weight > 0;
        if pushed {
            candidates.push(i);
            weights.push(endpoints[i].weight);
        }
        i += 1;
        proof {
            assert forall|j: int|
                0 <= j < i && #[trigger] endpoints@[j]@.weight > 0 implies exists|k: int|
                    0 <= k < candidates@.len() && #[trigger] candidates@[k] == j by {
                if j == i - 1 {
                    assert(candidates@[candidates@.len() - 1] == j);
                } else {
                    let k = choose|k: int|
                        0 <= k < prev_candidates.len() && #[trigger] prev_candidates[k] == j;
                    assert(candidates@[k] == j);
                }
            }
        }
    }
    if candidates.len() == 0 {
        proof {
            assert forall|j: int|
                0 <= j < endpoints@.len() implies #[trigger] endpoints@[j]@.weight == 0 by {
                if endpoints@[j]@.weight > 0 {
                    let k = choose|k: int|
                        0 <= k < candidates@.len() && #[trigger] candidates@[k] == j;
                }
            }
        }
        return Some(clone_endpoint(&endpoints[0]));
    }
    proof {
        assert(weights@.len() <= n);
        assert(weights@.len() * 255 <= n * 255);
    }
    let total = sum_weights(&weights);
    proof {
        if total == 0 {
            lemma_total_weight_zero(weights@);
            assert(weights@[0] == 0);
            assert(endpoints@[candidates@[0] as int]@.weight > 0);
        }
    }
    let draw = rand_below(total);
    let j = pick_weighted(&weights, draw);
    let chosen = candidates[j];
    let e = clone_endpoint(&endpoints[chosen]);
    proof {
        assert(endpoints@[chosen as int]@ == e@);
        assert(e@.weight > 0);
    }
    Some(e)
}

/// Sums a weight list.
fn sum_weights(weights: &Vec<u8>) -> (r: u64)
    requires
        weights@.len() * 255 < u64::MAX,
    ensures
        r == total_weight(weights@),
{
    let n = weights.len();
    let mut acc: u64 = 0;
    let mut i: usize = 0;
    proof {
        lemma_total_weight_bounds(weights@);
    }
    while i < n
        invariant
            i <= n,
            n == weights@.len(),
            n * 255 < u64::MAX,
            acc == total_weight(weights@.subrange(0, i as int)),
            acc <= 255 * i,
        decreases n - i,
    {
        proof {
            assert(weights@.subrange(0, i + 1).drop_last() =~= weights@.subrange(0, i as int));
            assert(weights@.subrange(0, i + 1).last() == weights@[i as int]);
        }
        acc = acc + weights[i] as u64;
        i += 1;
    }
    proof {
        assert(weights@.subrange(0, n as int) =~= weights@);
    }
    acc
}

/// A sum of weights is zero only when every weight is zero.
proof fn lemma_total_weight_zero(ws: Seq<u8>)
    requires
        total_weight(ws) == 0,
    ensures
        forall|i: int| 0 <= i < ws.len() ==> ws[i] == 0,
    decreases ws.len(),
{
    if ws.len() > 0 {
        lemma_total_weight_bounds(ws.drop_last());
        lemma_total_weight_zero(ws.drop_last());
        assert forall|i: int| 0 <= i < ws.len() implies ws[i] == 0 by {
            if i < ws.len() - 1 {
                assert(ws.drop_last()[i] == 0);
            }
        }
    }
}

} // verus!
