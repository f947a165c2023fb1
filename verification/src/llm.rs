//! Decision extraction by a language model of the user's own: what is asked, what is read from
//! the answer, and how it is combined with the rule-based extraction.

use vstd::prelude::*;

use crate::decision;
use crate::decision::{Candidate, CandidateV};
use crate::json;
use crate::json::{Json, JsonV};
use crate::model;
use crate::text;
use crate::text::CharClass;

verus! {

// ---------------------------------------------------------------------------
// Configuration
// ---------------------------------------------------------------------------

/// Which dialect an endpoint speaks.
#[derive(Debug, Clone, Copy, PartialEq, Eq, Structural)]
pub enum Provider {
    OpenAi,
    Anthropic,
}

/// Endpoint and credentials.
pub struct LlmConfig {
    pub endpoint: String,
    pub api_key: String,
    pub model: String,
    pub provider: Provider,
}

/// The dialect: as it is named, or else after the endpoint.
pub open spec fn provider_of(name: Option<Seq<char>>, endpoint: Seq<char>) -> Provider {
    if name == Some("anthropic"@) {
        Provider::Anthropic
    } else if name == Some("openai"@) {
        Provider::OpenAi
    } else if text::occurs(endpoint, "anthropic"@) {
        Provider::Anthropic
    } else {
        Provider::OpenAi
    }
}

/// Whether a setting is there and not empty.
pub open spec fn is_set(s: Option<String>) -> bool {
    s matches Some(x) && x@.len() != 0
}

impl LlmConfig {
    /// A configuration from the values of its settings; nothing unless endpoint, key and model
    /// are all there.
    pub fn from_vars(
        endpoint: Option<String>,
        api_key: Option<String>,
        model: Option<String>,
        provider: Option<String>,
    ) -> (r: Option<LlmConfig>)
        ensures
            match r {
                Some(c) => endpoint == Some(c.endpoint) && api_key == Some(c.api_key) && model == Some(
                    c.model,
                ) && c.endpoint@.len() != 0 && c.api_key@.len() != 0 && c.model@.len() != 0
                    && c.provider == provider_of(model::opt(provider), c.endpoint@),
                None => !is_set(endpoint) || !is_set(api_key) || !is_set(model),
            },
    {
        match (endpoint, api_key, model) {
            (Some(endpoint), Some(api_key), Some(model)) => {
                if endpoint.as_str().is_empty() || api_key.as_str().is_empty()
                    || model.as_str().is_empty() {
                    return None;
                }
                let named: Option<Provider> = match &provider {
                    Some(p) => if text::same_str(p.as_str(), "anthropic") {
                        Some(Provider::Anthropic)
                    } else if text::same_str(p.as_str(), "openai") {
                        Some(Provider::OpenAi)
                    } else {
                        None
                    },
                    None => None,
                };
                let provider = match named {
                    Some(p) => p,
                    None => if text::contains(&text::chars_of(endpoint.as_str()), "anthropic") {
                        Provider::Anthropic
                    } else {
                        Provider::OpenAi
                    },
                };
                Some(LlmConfig { endpoint, api_key, model, provider })
            },
            _ => None,
        }
    }
}

// ---------------------------------------------------------------------------
// Requests
// ---------------------------------------------------------------------------

/// What the model is told to do.
pub open spec fn system_prompt() -> Seq<char> {
    "You extract durable engineering DECISIONS from a chat transcript turn. Return ONLY a JSON object {\"decisions\":[...]} (no prose, no fences) where each entry has keys: \"decision\" (one sentence, what was chosen), \"rationale\" (why, may be empty), \"rejected\" (array of alternatives turned down, may be empty). If the turn contains no decision, return {\"decisions\":[]}."@
}

fn system_prompt_text() -> (r: &'static str)
    ensures
        r@ == system_prompt(),
{
    "You extract durable engineering DECISIONS from a chat transcript turn. Return ONLY a JSON object {\"decisions\":[...]} (no prose, no fences) where each entry has keys: \"decision\" (one sentence, what was chosen), \"rationale\" (why, may be empty), \"rejected\" (array of alternatives turned down, may be empty). If the turn contains no decision, return {\"decisions\":[]}."
}

/// A message with a role.
pub open spec fn message(role: Seq<char>, content: Seq<char>) -> JsonV {
    JsonV::Object(seq![("role"@, JsonV::Text(role)), ("content"@, JsonV::Text(content))])
}

/// The request for a turn's text, in the provider's dialect.
pub open spec fn request(provider: Provider, model: Seq<char>, content: Seq<char>) -> JsonV {
    match provider {
        Provider::OpenAi => JsonV::Object(
            seq![
                ("model"@, JsonV::Text(model)),
                ("temperature"@, JsonV::Number("0"@)),
                (
                    "response_format"@,
                    JsonV::Object(seq![("type"@, JsonV::Text("json_object"@))]),
                ),
                (
                    "messages"@,
                    JsonV::Array(
                        seq![message("system"@, system_prompt()), message("user"@, content)],
                    ),
                ),
            ],
        ),
        Provider::Anthropic => JsonV::Object(
            seq![
                ("model"@, JsonV::Text(model)),
                ("max_tokens"@, JsonV::Number("1024"@)),
                ("temperature"@, JsonV::Number("0"@)),
                ("system"@, JsonV::Text(system_prompt())),
                ("messages"@, JsonV::Array(seq![message("user"@, content)])),
            ],
        ),
    }
}

fn json_text(s: &str) -> (r: Json)
    ensures
        r@ == JsonV::Text(s@),
{
    Json::Text(model::owned(s))
}

fn json_number(s: &str) -> (r: Json)
    ensures
        r@ == JsonV::Number(s@),
{
    Json::Number(model::owned(s))
}

fn add_member(members: &mut Vec<(String, Json)>, key: &str, value: Json)
    ensures
        json::members_view(final(members)@) == json::members_view(old(members)@).push(
            (key@, value@),
        ),
{
    let ghost was = members@;
    members.push((model::owned(key), value));
    assert(members@.drop_last() =~= was);
}

fn add_item(items: &mut Vec<Json>, value: Json)
    ensures
        json::items_view(final(items)@) == json::items_view(old(items)@).push(value@),
{
    let ghost was = items@;
    items.push(value);
    assert(items@.drop_last() =~= was);
}

fn message_json(role: &str, content: &str) -> (r: Json)
    ensures
        r@ == message(role@, content@),
{
    let mut members: Vec<(String, Json)> = Vec::new();
    add_member(&mut members, "role", json_text(role));
    add_member(&mut members, "content", json_text(content));
    assert(json::members_view(members@) =~= seq![
        ("role"@, JsonV::Text(role@)),
        ("content"@, JsonV::Text(content@)),
    ]);
    Json::Object(members)
}

/// Builds the request for a turn's text.
pub fn build_request(provider: Provider, model: &str, content: &str) -> (r: Json)
    ensures
        r@ == request(provider, model@, content@),
{
    let mut members: Vec<(String, Json)> = Vec::new();
    let mut messages: Vec<Json> = Vec::new();
    add_member(&mut members, "model", json_text(model));
    match provider {
        Provider::OpenAi => {
            add_member(&mut members, "temperature", json_number("0"));
            let mut format: Vec<(String, Json)> = Vec::new();
            add_member(&mut format, "type", json_text("json_object"));
            assert(json::members_view(format@) =~= seq![("type"@, JsonV::Text("json_object"@))]);
            add_member(&mut members, "response_format", Json::Object(format));
            add_item(&mut messages, message_json("system", system_prompt_text()));
            add_item(&mut messages, message_json("user", content));
            assert(json::items_view(messages@) =~= seq![
                message("system"@, system_prompt()),
                message("user"@, content@),
            ]);
        },
        Provider::Anthropic => {
            add_member(&mut members, "max_tokens", json_number("1024"));
            add_member(&mut members, "temperature", json_number("0"));
            add_member(&mut members, "system", json_text(system_prompt_text()));
            add_item(&mut messages, message_json("user", content));
            assert(json::items_view(messages@) =~= seq![message("user"@, content@)]);
        },
    }
    add_member(&mut members, "messages", Json::Array(messages));
    let r = Json::Object(members);
    match provider {
        Provider::OpenAi => {
            assert(r@->Object_0 =~= request(provider, model@, content@)->Object_0);
        },
        Provider::Anthropic => {
            assert(r@->Object_0 =~= request(provider, model@, content@)->Object_0);
        },
    }
    r
}

// ---------------------------------------------------------------------------
// Answers
// ---------------------------------------------------------------------------

/// A distilled decision.
pub struct DecisionExtraction {
    pub decision: String,
    pub rationale: String,
    pub rejected: Vec<String>,
}

/// What a distilled decision says.
#[verifier::ext_equal]
pub struct ExtractionV {
    pub decision: Seq<char>,
    pub rationale: Seq<char>,
    pub rejected: Seq<Seq<char>>,
}

impl View for DecisionExtraction {
    type V = ExtractionV;

    open spec fn view(&self) -> ExtractionV {
        ExtractionV {
            decision: self.decision@,
            rationale: self.rationale@,
            rejected: text::string_views(self.rejected@),
        }
    }
}

/// The views of a list of decisions.
pub open spec fn extraction_views(v: Seq<DecisionExtraction>) -> Seq<ExtractionV> {
    v.map_values(|d: DecisionExtraction| d@)
}

/// Why an answer holds no decisions.
#[derive(Debug, Clone, Copy, PartialEq, Eq, Structural)]
pub enum LlmError {
    /// No text at `choices[0].message.content`.
    NoOpenAiContent,
    /// No text in `content[]`.
    NoAnthropicContent,
    /// The text is not JSON; its length in bytes.
    NotJson(usize),
    /// The JSON is neither an array nor an object.
    NotArrayOrObject,
}

/// The first item of an array.
pub open spec fn first_item(j: Option<JsonV>) -> Option<JsonV> {
    match json::array_of(j) {
        Some(items) => if items.len() == 0 {
            None
        } else {
            Some(items[0])
        },
        None => None,
    }
}

/// The text of the first block that has one.
pub open spec fn first_text(blocks: Seq<JsonV>) -> Option<Seq<char>>
    decreases blocks.len(),
{
    if blocks.len() == 0 {
        None
    } else {
        match json::text_field(blocks[0], "text"@) {
            Some(t) => Some(t),
            None => first_text(blocks.drop_first()),
        }
    }
}

/// The model's text in an answer.
pub open spec fn answer_text(provider: Provider, body: JsonV) -> Option<Seq<char>> {
    match provider {
        Provider::OpenAi => match first_item(json::field(body, "choices"@)) {
            Some(choice) => match json::field(choice, "message"@) {
                Some(m) => json::text_field(m, "content"@),
                None => None,
            },
            None => None,
        },
        Provider::Anthropic => match json::array_of(json::field(body, "content"@)) {
            Some(blocks) => first_text(blocks),
            None => None,
        },
    }
}

/// The text without the code fence that some models put around JSON.
pub open spec fn unfenced(s: Seq<char>) -> Seq<char> {
    let t = text::trimmed(s);
    if !text::has_prefix(t, "```"@) {
        t
    } else {
        let a = t.skip(3);
        let b = if text::has_prefix(a, "json"@) {
            a.skip(4)
        } else {
            a
        };
        let c = text::trimmed_start(b, CharClass::Is('\n'));
        text::trimmed(
            if text::has_suffix(c, "```"@) {
                c.take(c.len() - 3)
            } else {
                c
            },
        )
    }
}

/// The texts of a list that holds nothing but strings.
pub open spec fn texts_of(items: Seq<JsonV>) -> Option<Seq<Seq<char>>>
    decreases items.len(),
{
    if items.len() == 0 {
        Some(Seq::empty())
    } else {
        match (texts_of(items.drop_last()), items.last()) {
            (Some(ts), JsonV::Text(t)) => Some(ts.push(t)),
            _ => None,
        }
    }
}

/// A text that may be left out, but must be a string where it is there.
pub open spec fn optional_text(j: Option<JsonV>) -> Option<Seq<char>> {
    match j {
        None => Some(Seq::empty()),
        Some(JsonV::Text(t)) => Some(t),
        _ => None,
    }
}

/// A list of texts that may be left out, but must hold nothing but strings where it is there.
pub open spec fn optional_texts(j: Option<JsonV>) -> Option<Seq<Seq<char>>> {
    match j {
        None => Some(Seq::empty()),
        Some(JsonV::Array(items)) => texts_of(items),
        _ => None,
    }
}

/// The item at an index.
pub open spec fn item_at(items: Seq<JsonV>, i: int) -> Option<JsonV> {
    if 0 <= i < items.len() {
        Some(items[i])
    } else {
        None
    }
}

/// The decision made of its three parts.
pub open spec fn extraction(
    decision: Option<JsonV>,
    rationale: Option<JsonV>,
    rejected: Option<JsonV>,
) -> Option<ExtractionV> {
    match (json::text_of(decision), optional_text(rationale), optional_texts(rejected)) {
        (Some(decision), Some(rationale), Some(rejected)) => Some(
            ExtractionV { decision, rationale, rejected },
        ),
        _ => None,
    }
}

/// The decision in a JSON value: an object with the three members, or an array with the three
/// parts in order, of which only the first is needed.
pub open spec fn extraction_in(j: JsonV) -> Option<ExtractionV> {
    match j {
        JsonV::Object(ms) => extraction(
            json::member(ms, "decision"@),
            json::member(ms, "rationale"@),
            json::member(ms, "rejected"@),
        ),
        JsonV::Array(items) => if items.len() > 3 {
            None
        } else {
            extraction(item_at(items, 0), item_at(items, 1), item_at(items, 2))
        },
        _ => None,
    }
}

/// The decisions in a list; items that are none, or blank ones, are passed over.
pub open spec fn extractions_in(items: Seq<JsonV>) -> Seq<ExtractionV>
    decreases items.len(),
{
    if items.len() == 0 {
        Seq::empty()
    } else {
        let before = extractions_in(items.drop_last());
        match extraction_in(items.last()) {
            Some(d) => if text::trimmed(d.decision).len() == 0 {
                before
            } else {
                before.push(d)
            },
            None => before,
        }
    }
}

/// The decisions in a JSON value: those of an array, those of the member `decisions` where
/// that is an array, or the one that an object is. Nothing for any other value.
pub open spec fn decisions_of(value: JsonV) -> Option<Seq<ExtractionV>> {
    match value {
        JsonV::Array(items) => Some(extractions_in(items)),
        JsonV::Object(_) => match json::array_of(json::field(value, "decisions"@)) {
            Some(items) => Some(extractions_in(items)),
            None => Some(extractions_in(seq![value])),
        },
        _ => None,
    }
}

fn content_of<'a>(provider: Provider, body: &'a Json) -> (r: Option<&'a String>)
    ensures
        json::str_opt(r) == answer_text(provider, body@),
{
    match provider {
        Provider::OpenAi => {
            let choices = match body.get("choices") {
                Some(c) => c.as_array(),
                None => None,
            };
            match choices {
                Some(items) => {
                    proof {
                        json::lemma_items_view(items@);
                    }
                    if items.len() == 0 {
                        return None;
                    }
                    assert(json::items_view(items@)[0] == items@[0]@);
                    match items[0].get("message") {
                        Some(m) => m.get_text("content"),
                        None => None,
                    }
                },
                None => None,
            }
        },
        Provider::Anthropic => {
            let content = match body.get("content") {
                Some(c) => c.as_array(),
                None => None,
            };
            match content {
                Some(blocks) => {
                    let ghost all = json::items_view(blocks@);
                    proof {
                        json::lemma_items_view(blocks@);
                        assert(all.skip(0) =~= all);
                    }
                    let n: usize = blocks.len();
                    for i in 0..n
                        invariant
                            n == blocks@.len() == all.len(),
                            all == json::items_view(blocks@),
                            forall|j: int| 0 <= j < n ==> #[trigger] all[j] == blocks@[j]@,
                            answer_text(provider, body@) == first_text(all),
                            first_text(all) == first_text(all.skip(i as int)),
                    {
                        assert(all.skip(i as int)[0] == blocks@[i as int]@);
                        assert(all.skip(i as int).drop_first() =~= all.skip(i + 1));
                        if let Some(t) = blocks[i].get_text("text") {
                            return Some(t);
                        }
                    }
                    None
                },
                None => None,
            }
        },
    }
}

/// Strips the code fence around a text.
pub fn strip_code_fence(s: &[char]) -> (r: Vec<char>)
    ensures
        r@ == unfenced(s@),
{
    proof {
        reveal_strlit("```");
        reveal_strlit("json");
    }
    let t = text::trim(s);
    if !text::starts_with(&t, "```") {
        return t;
    }
    let a = text::part(&t, 3, t.len());
    assert(a@ =~= t@.skip(3));
    let from: usize = if text::starts_with(&a, "json") {
        4
    } else {
        0
    };
    let b = text::part(&a, from, a.len());
    assert(b@ =~= (if text::has_prefix(a@, "json"@) {
        a@.skip(4)
    } else {
        a@
    }));
    let c = text::trim_start(&b, CharClass::Is('\n'));
    if text::ends_with(&c, "```") {
        let d = text::part(&c, 0, c.len() - 3);
        assert(d@ =~= c@.take(c@.len() - 3));
        text::trim(&d)
    } else {
        text::trim(&c)
    }
}

fn read_texts(items: &Vec<Json>) -> (r: Option<Vec<String>>)
    ensures
        texts_of(json::items_view(items@)) == (match r {
            Some(v) => Some(text::string_views(v@)),
            None => None,
        }),
{
    let ghost all = json::items_view(items@);
    proof {
        json::lemma_items_view(items@);
        assert(all.take(0) =~= Seq::empty());
    }
    let mut out: Vec<String> = Vec::new();
    let n: usize = items.len();
    assert(text::string_views(out@) =~= Seq::empty());
    for i in 0..n
        invariant
            n == items@.len() == all.len(),
            all == json::items_view(items@),
            forall|j: int| 0 <= j < n ==> #[trigger] all[j] == items@[j]@,
            texts_of(all.take(i as int)) == Some(text::string_views(out@)),
    {
        assert(all.take(i + 1).drop_last() =~= all.take(i as int));
        assert(all.take(i + 1).last() == items@[i as int]@);
        match items[i].as_text() {
            Some(t) => {
                let ghost before = out@;
                out.push(t.clone());
                assert(text::string_views(out@) =~= text::string_views(before).push(t@));
            },
            None => {
                proof {
                    lemma_texts_prefix(all, i + 1);
                }
                return None;
            },
        }
    }
    assert(all.take(n as int) =~= all);
    Some(out)
}

proof fn lemma_texts_prefix(items: Seq<JsonV>, n: int)
    requires
        0 <= n <= items.len(),
        texts_of(items.take(n)) is None,
    ensures
        texts_of(items) is None,
    decreases items.len() - n,
{
    if n < items.len() {
        assert(items.take(n + 1).drop_last() =~= items.take(n));
        lemma_texts_prefix(items, n + 1);
    } else {
        assert(items.take(n) =~= items);
    }
}

fn read_extraction(
    decision: Option<&Json>,
    rationale: Option<&Json>,
    rejected: Option<&Json>,
) -> (r: Option<DecisionExtraction>)
    ensures
        extraction(json::view_opt(decision), json::view_opt(rationale), json::view_opt(rejected))
            == (match r {
            Some(d) => Some(d@),
            None => None,
        }),
{
    let decision = match decision {
        Some(j) => match j.as_text() {
            Some(t) => t.clone(),
            None => {
                return None;
            },
        },
        None => {
            return None;
        },
    };
    let rationale = match rationale {
        Some(j) => match j.as_text() {
            Some(t) => t.clone(),
            None => {
                return None;
            },
        },
        None => String::new(),
    };
    let rejected: Vec<String> = match rejected {
        Some(j) => match j.as_array() {
            Some(items) => match read_texts(items) {
                Some(v) => v,
                None => {
                    return None;
                },
            },
            None => {
                return None;
            },
        },
        None => {
            let none: Vec<String> = Vec::new();
            assert(text::string_views(none@) =~= Seq::empty());
            none
        },
    };
    Some(DecisionExtraction { decision, rationale, rejected })
}

impl DecisionExtraction {
    /// Reads a decision from a JSON value.
    pub fn from_json(j: &Json) -> (r: Option<DecisionExtraction>)
        ensures
            extraction_in(j@) == (match r {
                Some(d) => Some(d@),
                None => None,
            }),
    {
        match j {
            Json::Object(_) => read_extraction(j.get("decision"), j.get("rationale"), j.get("rejected")),
            Json::Array(items) => {
                proof {
                    json::lemma_items_view(items@);
                }
                let n: usize = items.len();
                if n > 3 {
                    return None;
                }
                let a: Option<&Json> = if n > 0 {
                    Some(&items[0])
                } else {
                    None
                };
                let b: Option<&Json> = if n > 1 {
                    Some(&items[1])
                } else {
                    None
                };
                let c: Option<&Json> = if n > 2 {
                    Some(&items[2])
                } else {
                    None
                };
                read_extraction(a, b, c)
            },
            _ => None,
        }
    }
}

fn read_all(items: &Vec<Json>) -> (r: Vec<DecisionExtraction>)
    ensures
        extraction_views(r@) == extractions_in(json::items_view(items@)),
{
    let ghost all = json::items_view(items@);
    proof {
        json::lemma_items_view(items@);
        assert(all.take(0) =~= Seq::empty());
    }
    let mut out: Vec<DecisionExtraction> = Vec::new();
    let n: usize = items.len();
    assert(extraction_views(out@) =~= Seq::empty());
    for i in 0..n
        invariant
            n == items@.len() == all.len(),
            all == json::items_view(items@),
            forall|j: int| 0 <= j < n ==> #[trigger] all[j] == items@[j]@,
            extraction_views(out@) == extractions_in(all.take(i as int)),
    {
        assert(all.take(i + 1).drop_last() =~= all.take(i as int));
        assert(all.take(i + 1).last() == items@[i as int]@);
        if let Some(d) = DecisionExtraction::from_json(&items[i]) {
            if text::trim(&text::chars_of(d.decision.as_str())).len() != 0 {
                let ghost before = out@;
                out.push(d);
                assert(extraction_views(out@) =~= extraction_views(before).push(d@));
            }
        }
    }
    assert(all.take(n as int) =~= all);
    out
}

/// Reads the decisions in the JSON that a model answered with; nothing where it is neither an
/// array nor an object.
pub fn decisions_in(value: &Json) -> (r: Option<Vec<DecisionExtraction>>)
    ensures
        decisions_of(value@) == (match r {
            Some(v) => Some(extraction_views(v@)),
            None => None,
        }),
{
    match value {
        Json::Array(items) => Some(read_all(items)),
        Json::Object(_) => {
            let listed = match value.get("decisions") {
                Some(d) => d.as_array(),
                None => None,
            };
            match listed {
                Some(items) => Some(read_all(items)),
                None => {
                    let mut out: Vec<DecisionExtraction> = Vec::new();
                    let ghost one = seq![value@];
                    assert(one.drop_last() =~= Seq::empty());
                    assert(one.last() == value@);
                    assert(extractions_in(one.drop_last()) == Seq::<ExtractionV>::empty());
                    assert(extraction_views(out@) =~= Seq::empty());
                    if let Some(d) = DecisionExtraction::from_json(value) {
                        if text::trim(&text::chars_of(d.decision.as_str())).len() != 0 {
                            out.push(d);
                            assert(extraction_views(out@) =~= Seq::empty().push(d@));
                        }
                    }
                    Some(out)
                },
            }
        },
        _ => None,
    }
}

/// The decisions in an answer, or why there are none.
pub open spec fn response(provider: Provider, body: JsonV) -> Result<Seq<ExtractionV>, LlmError> {
    match answer_text(provider, body) {
        None => Err(
            match provider {
                Provider::OpenAi => LlmError::NoOpenAiContent,
                Provider::Anthropic => LlmError::NoAnthropicContent,
            },
        ),
        Some(content) => {
            let cleaned = unfenced(text::trimmed(content));
            match json::json_parsed(cleaned) {
                None => Err(LlmError::NotJson(text::utf8_len(cleaned) as usize)),
                Some(value) => match decisions_of(value) {
                    Some(ds) => Ok(ds),
                    None => Err(LlmError::NotArrayOrObject),
                },
            }
        },
    }
}

/// Reads the decisions in an answer.
pub fn parse_response(provider: Provider, body: &Json) -> (r: Result<
    Vec<DecisionExtraction>,
    LlmError,
>)
    ensures
        response(provider, body@) == (match r {
            Ok(v) => Ok(extraction_views(v@)),
            Err(e) => Err(e),
        }),
{
    let content = match content_of(provider, body) {
        Some(c) => c,
        None => {
            return Err(
                match provider {
                    Provider::OpenAi => LlmError::NoOpenAiContent,
                    Provider::Anthropic => LlmError::NoAnthropicContent,
                },
            );
        },
    };
    let cleaned = strip_code_fence(&text::trim(&text::chars_of(content.as_str())));
    match json::parse(text::string_of(&cleaned).as_str()) {
        None => Err(LlmError::NotJson(text::byte_len(&cleaned))),
        Some(value) => match decisions_in(&value) {
            Some(ds) => Ok(ds),
            None => Err(LlmError::NotArrayOrObject),
        },
    }
}

// ---------------------------------------------------------------------------
// Combining
// ---------------------------------------------------------------------------

/// The bits of 0.9: the confidence of a model's decision.
pub const MODEL_CONFIDENCE: u32 = 0x3f66_6666;

/// The candidate that a model's decision becomes.
pub open spec fn model_candidate(turn_index: usize, d: ExtractionV) -> CandidateV {
    CandidateV {
        turn_index,
        text: d.decision,
        confidence: MODEL_CONFIDENCE,
        rationale: d.rationale,
        rejected: d.rejected,
        extractor: "byo-llm-v1"@,
    }
}

/// The candidates of one turn.
pub open spec fn of_turn(cands: Seq<CandidateV>, turn_index: usize) -> Seq<CandidateV>
    decreases cands.len(),
{
    if cands.len() == 0 {
        Seq::empty()
    } else if cands.last().turn_index == turn_index {
        of_turn(cands.drop_last(), turn_index).push(cands.last())
    } else {
        of_turn(cands.drop_last(), turn_index)
    }
}

/// What the model said of a turn: nothing where it could not be asked or failed.
pub open spec fn reply_view(reply: Option<Vec<DecisionExtraction>>) -> Option<Seq<ExtractionV>> {
    match reply {
        Some(v) => Some(extraction_views(v@)),
        None => None,
    }
}

/// The candidates of one turn after the model was asked: its decisions where it made any, or
/// else those of the rules.
pub open spec fn turn_candidates(
    rules: Seq<CandidateV>,
    turn_index: usize,
    reply: Option<Seq<ExtractionV>>,
) -> Seq<CandidateV> {
    match reply {
        Some(ds) => if ds.len() == 0 {
            of_turn(rules, turn_index)
        } else {
            ds.map_values(|d: ExtractionV| model_candidate(turn_index, d))
        },
        None => of_turn(rules, turn_index),
    }
}

/// The candidates of all turns after the model was asked.
pub open spec fn augmented(
    rules: Seq<CandidateV>,
    turns: Seq<usize>,
    replies: Seq<Option<Seq<ExtractionV>>>,
) -> Seq<CandidateV>
    decreases turns.len(),
{
    if turns.len() == 0 {
        Seq::empty()
    } else {
        augmented(rules, turns.drop_last(), replies.drop_last()) + turn_candidates(
            rules,
            turns.last(),
            replies.last(),
        )
    }
}

/// Whether a list names the turns of the candidates, ascending, each once.
pub open spec fn names_turns(turns: Seq<usize>, cands: Seq<CandidateV>) -> bool {
    &&& forall|i: int, j: int| 0 <= i < j < turns.len() ==> turns[i] < turns[j]
    &&& forall|t: usize| #[trigger]
        turns.contains(t) <==> exists|i: int|
            0 <= i < cands.len() && (#[trigger] cands[i]).turn_index == t
}

/// The turns to ask the model about: those with a rule-based candidate.
pub fn candidate_turns(cands: &Vec<Candidate>) -> (r: Vec<usize>)
    ensures
        names_turns(r@, decision::candidate_views(cands@)),
{
    let ghost cs = decision::candidate_views(cands@);
    let mut out: Vec<usize> = Vec::new();
    let n: usize = cands.len();
    for i in 0..n
        invariant
            n == cands@.len(),
            cs == decision::candidate_views(cands@),
            names_turns(out@, cs.take(i as int)),
    {
        let t: usize = cands[i].turn_index;
        assert(cs[i as int].turn_index == t);
        let ghost was = out@;
        let m: usize = out.len();
        let mut k: usize = 0;
        while k < m && out[k] < t
            invariant
                k <= m == out@.len(),
                out@ == was,
                forall|j: int| 0 <= j < k ==> #[trigger] was[j] < t,
            decreases m - k,
        {
            k += 1;
        }
        let known = k < m && out[k] == t;
        if !known {
            out.insert(k, t);
        }
        proof {
            let before = cs.take(i as int);
            let after = cs.take(i + 1);
            assert forall|x: usize| #[trigger] out@.contains(x) <==> was.contains(x) || x == t by {
                if known {
                    assert(was[k as int] == t);
                } else {
                    assert(out@[k as int] == t);
                    if was.contains(x) {
                        let j = choose|j: int| 0 <= j < was.len() && was[j] == x;
                        if j < k {
                            assert(out@[j] == x);
                        } else {
                            assert(out@[j + 1] == x);
                        }
                    }
                    if out@.contains(x) && x != t {
                        let j = choose|j: int| 0 <= j < out@.len() && out@[j] == x;
                        if j < k {
                            assert(was[j] == x);
                        } else {
                            assert(was[j - 1] == x);
                        }
                    }
                }
            }
            assert forall|x: usize| #[trigger] out@.contains(x) <==> exists|j: int|
                0 <= j < after.len() && (#[trigger] after[j]).turn_index == x by {
                if was.contains(x) {
                    let j = choose|j: int|
                        0 <= j < before.len() && (#[trigger] before[j]).turn_index == x;
                    assert(after[j] == before[j]);
                }
                if x == t {
                    assert(after[i as int].turn_index == x);
                }
                if exists|j: int| 0 <= j < after.len() && (#[trigger] after[j]).turn_index == x {
                    let j = choose|j: int|
                        0 <= j < after.len() && (#[trigger] after[j]).turn_index == x;
                    if j < i {
                        assert(before[j].turn_index == x);
                        assert(was.contains(x));
                    }
                }
            }
            if !known {
                assert forall|x: int, y: int| 0 <= x < y < out@.len() implies out@[x] < out@[y] by {
                    if y < k {
                        assert(was[x] < was[y]);
                    } else if y == k {
                        assert(was[x] < t);
                    } else if x > k {
                        assert(was[x - 1] < was[y - 1]);
                    } else {
                        assert(was[k as int] > t);
                        if y - 1 > k {
                            assert(was[k as int] < was[y - 1]);
                        }
                        if x < k {
                            assert(was[x] < t);
                        }
                    }
                }
            }
        }
    }
    assert(cs.take(n as int) =~= cs);
    out
}

/// Puts what the model said in the place of what the rules found, turn by turn. `replies[i]`
/// is what it said of turn `turns[i]`.
pub fn augment(
    rules: &Vec<Candidate>,
    turns: &Vec<usize>,
    replies: &Vec<Option<Vec<DecisionExtraction>>>,
) -> (r: Vec<Candidate>)
    requires
        turns@.len() == replies@.len(),
    ensures
        decision::candidate_views(r@) == augmented(
            decision::candidate_views(rules@),
            turns@,
            replies@.map_values(|x: Option<Vec<DecisionExtraction>>| reply_view(x)),
        ),
{
    let ghost rs = decision::candidate_views(rules@);
    let ghost says = replies@.map_values(|x: Option<Vec<DecisionExtraction>>| reply_view(x));
    let mut out: Vec<Candidate> = Vec::new();
    let n: usize = turns.len();
    assert(turns@.take(0) =~= Seq::empty());
    assert(decision::candidate_views(out@) =~= Seq::empty());
    for i in 0..n
        invariant
            n == turns@.len() == replies@.len() == says.len(),
            rs == decision::candidate_views(rules@),
            says == replies@.map_values(|x: Option<Vec<DecisionExtraction>>| reply_view(x)),
            decision::candidate_views(out@) == augmented(rs, turns@.take(i as int), says.take(i as int)),
    {
        assert(turns@.take(i + 1).drop_last() =~= turns@.take(i as int));
        assert(says.take(i + 1).drop_last() =~= says.take(i as int));
        assert(says.take(i + 1).last() == reply_view(replies@[i as int]));
        let ghost before = decision::candidate_views(out@);
        let t: usize = turns[i];
        let made = match &replies[i] {
            Some(ds) => ds.len() != 0,
            None => false,
        };
        if made {
            if let Some(ds) = &replies[i] {
                add_model_candidates(&mut out, t, ds);
            }
        } else {
            add_rule_candidates(&mut out, t, rules);
        }
        assert(decision::candidate_views(out@) == before + turn_candidates(
            rs,
            t,
            reply_view(replies@[i as int]),
        ));
    }
    assert(turns@.take(n as int) =~= turns@);
    assert(says.take(n as int) =~= says);
    out
}

fn add_model_candidates(out: &mut Vec<Candidate>, turn_index: usize, ds: &Vec<DecisionExtraction>)
    ensures
        decision::candidate_views(final(out)@) == decision::candidate_views(old(out)@)
            + extraction_views(ds@).map_values(|d: ExtractionV| model_candidate(turn_index, d)),
{
    let ghost was = decision::candidate_views(out@);
    let ghost add = extraction_views(ds@).map_values(|d: ExtractionV| model_candidate(turn_index, d));
    let n: usize = ds.len();
    assert(was + add.take(0) =~= was);
    for i in 0..n
        invariant
            n == ds@.len() == add.len(),
            add == extraction_views(ds@).map_values(
                |d: ExtractionV| model_candidate(turn_index, d),
            ),
            decision::candidate_views(out@) == was + add.take(i as int),
    {
        let c = Candidate {
            turn_index,
            text: ds[i].decision.clone(),
            confidence: MODEL_CONFIDENCE,
            rationale: ds[i].rationale.clone(),
            rejected: model::copy_strings(&ds[i].rejected),
            extractor: "byo-llm-v1",
        };
        assert(c@ == add[i as int]);
        let ghost before = out@;
        out.push(c);
        assert(decision::candidate_views(out@) =~= decision::candidate_views(before).push(c@));
        assert(was + add.take(i + 1) =~= (was + add.take(i as int)).push(add[i as int]));
    }
    assert(add.take(n as int) =~= add);
}

fn add_rule_candidates(out: &mut Vec<Candidate>, turn_index: usize, rules: &Vec<Candidate>)
    ensures
        decision::candidate_views(final(out)@) == decision::candidate_views(old(out)@) + of_turn(
            decision::candidate_views(rules@),
            turn_index,
        ),
{
    let ghost was = decision::candidate_views(out@);
    let ghost rs = decision::candidate_views(rules@);
    let n: usize = rules.len();
    assert(rs.take(0) =~= Seq::empty());
    assert(was + Seq::empty() =~= was);
    for i in 0..n
        invariant
            n == rules@.len(),
            rs == decision::candidate_views(rules@),
            decision::candidate_views(out@) == was + of_turn(rs.take(i as int), turn_index),
    {
        assert(rs.take(i + 1).drop_last() =~= rs.take(i as int));
        assert(rs.take(i + 1).last() == rules@[i as int]@);
        if rules[i].turn_index == turn_index {
            let c = rules[i].clone();
            let ghost before = out@;
            out.push(c);
            assert(decision::candidate_views(out@) =~= decision::candidate_views(before).push(c@));
            assert(was + of_turn(rs.take(i + 1), turn_index) =~= (was + of_turn(
                rs.take(i as int),
                turn_index,
            )).push(c@));
        }
    }
    assert(rs.take(n as int) =~= rs);
}

/// A turn that the model could not be asked about, or of which it made nothing, keeps its
/// rule-based candidates.
pub proof fn no_reply_drops_no_decision(
    rules: Seq<CandidateV>,
    turn_index: usize,
    reply: Option<Seq<ExtractionV>>,
)
    requires
        reply is None || reply->0.len() == 0,
    ensures
        turn_candidates(rules, turn_index, reply) == of_turn(rules, turn_index),
{
}

// ---------------------------------------------------------------------------
// Laws
// ---------------------------------------------------------------------------

/// A provider is known by its name; without one, by its address.
pub proof fn providers_are_known(name: Option<Seq<char>>, endpoint: Seq<char>)
    ensures
        name == Some("anthropic"@) ==> provider_of(name, endpoint) == Provider::Anthropic,
        name == Some("openai"@) ==> provider_of(name, endpoint) == Provider::OpenAi,
        name != Some("anthropic"@) && name != Some("openai"@) ==> (provider_of(name, endpoint)
            == Provider::Anthropic <==> text::occurs(endpoint, "anthropic"@)),
{
    reveal_strlit("anthropic");
    reveal_strlit("openai");
    assert("anthropic"@.len() == 9 && "openai"@.len() == 6);
}

proof fn lemma_keys_differ()
    ensures
        "model"@ != "messages"@,
        "model"@ != "max_tokens"@,
        "model"@ != "temperature"@,
        "model"@ != "system"@,
        "model"@ != "response_format"@,
        "max_tokens"@ != "messages"@,
        "temperature"@ != "messages"@,
        "response_format"@ != "messages"@,
        "system"@ != "messages"@,
        "max_tokens"@ != "system"@,
        "temperature"@ != "system"@,
        "role"@ != "content"@,
{
    reveal_strlit("model");
    reveal_strlit("messages");
    reveal_strlit("max_tokens");
    reveal_strlit("temperature");
    reveal_strlit("system");
    reveal_strlit("response_format");
    reveal_strlit("role");
    reveal_strlit("content");
    assert("model"@.len() == 5 && "messages"@.len() == 8 && "max_tokens"@.len() == 10
        && "temperature"@.len() == 11 && "system"@.len() == 6 && "response_format"@.len() == 15
        && "role"@.len() == 4 && "content"@.len() == 7);
}

/// A request names the model and hands on the text of the turn, after the instructions.
pub proof fn requests_hand_on_the_turn(model: Seq<char>, content: Seq<char>)
    ensures
        json::text_field(request(Provider::OpenAi, model, content), "model"@) == Some(model),
        json::text_field(request(Provider::Anthropic, model, content), "model"@) == Some(model),
        json::array_of(
            json::field(request(Provider::OpenAi, model, content), "messages"@),
        ) matches Some(ms) && ms.len() == 2 && json::text_field(ms[0], "role"@) == Some("system"@)
            && json::text_field(ms[0], "content"@) == Some(system_prompt()) && json::text_field(
            ms[1],
            "role"@,
        ) == Some("user"@) && json::text_field(ms[1], "content"@) == Some(content),
        json::text_field(request(Provider::Anthropic, model, content), "system"@) == Some(
            system_prompt(),
        ),
        json::array_of(
            json::field(request(Provider::Anthropic, model, content), "messages"@),
        ) matches Some(ms) && ms.len() == 1 && json::text_field(ms[0], "role"@) == Some("user"@)
            && json::text_field(ms[0], "content"@) == Some(content),
{
    lemma_keys_differ();
    let a = request(Provider::OpenAi, model, content)->Object_0;
    json::the_first_member_counts(a, "model"@, 0);
    json::the_first_member_counts(a, "messages"@, 3);
    let b = request(Provider::Anthropic, model, content)->Object_0;
    json::the_first_member_counts(b, "model"@, 0);
    json::the_first_member_counts(b, "system"@, 3);
    json::the_first_member_counts(b, "messages"@, 4);
    let s = message("system"@, system_prompt())->Object_0;
    json::the_first_member_counts(s, "role"@, 0);
    json::the_first_member_counts(s, "content"@, 1);
    let u = message("user"@, content)->Object_0;
    json::the_first_member_counts(u, "role"@, 0);
    json::the_first_member_counts(u, "content"@, 1);
}

/// The text of an answer is that of its first choice, or of its first block that has one.
pub proof fn answers_are_read(body: JsonV, items: Seq<JsonV>, m: JsonV, i: int, t: Seq<char>)
    ensures
        json::field(body, "choices"@) == Some(JsonV::Array(items)) && items.len() != 0
            && json::field(items[0], "message"@) == Some(m) && json::text_field(m, "content"@)
            == Some(t) ==> answer_text(Provider::OpenAi, body) == Some(t),
        json::field(body, "content"@) == Some(JsonV::Array(items)) && 0 <= i < items.len()
            && json::text_field(items[i], "text"@) == Some(t) && (forall|j: int|
            0 <= j < i ==> json::text_field(#[trigger] items[j], "text"@) is None) ==> answer_text(
            Provider::Anthropic,
            body,
        ) == Some(t),
{
    if 0 <= i < items.len() && json::text_field(items[i], "text"@) == Some(t) && (forall|j: int|
        0 <= j < i ==> json::text_field(#[trigger] items[j], "text"@) is None) {
        lemma_first_text(items, i);
    }
}

proof fn lemma_first_text(blocks: Seq<JsonV>, i: int)
    requires
        0 <= i < blocks.len(),
        json::text_field(blocks[i], "text"@) is Some,
        forall|j: int| 0 <= j < i ==> json::text_field(#[trigger] blocks[j], "text"@) is None,
    ensures
        first_text(blocks) == json::text_field(blocks[i], "text"@),
    decreases i,
{
    if i > 0 {
        let rest = blocks.drop_first();
        assert(rest[i - 1] == blocks[i]);
        assert forall|j: int| 0 <= j < i - 1 implies json::text_field(
            #[trigger] rest[j],
            "text"@,
        ) is None by {
            assert(rest[j] == blocks[j + 1]);
        }
        lemma_first_text(rest, i - 1);
    }
}

/// A text without a code fence is only trimmed.
pub proof fn plain_answers_are_kept(s: Seq<char>)
    requires
        text::trimmed(s).len() == 0 || text::trimmed(s)[0] != '`',
    ensures
        unfenced(s) == text::trimmed(s),
{
    let t = text::trimmed(s);
    reveal_strlit("```");
    if text::has_prefix(t, "```"@) {
        assert(t.subrange(0, 3)[0] == t[0]);
        assert("```"@[0] == '`');
    }
}

/// A decision is read from an object by its three members: the decision itself must be there,
/// the others may be left out.
pub proof fn decisions_are_read_from_objects(
    ms: Seq<(Seq<char>, JsonV)>,
    decision: Seq<char>,
    rationale: Seq<char>,
)
    requires
        json::field(JsonV::Object(ms), "decision"@) == Some(JsonV::Text(decision)),
    ensures
        json::field(JsonV::Object(ms), "rationale"@) == Some(JsonV::Text(rationale))
            && json::field(JsonV::Object(ms), "rejected"@) is None ==> extraction_in(
            JsonV::Object(ms),
        ) == Some(ExtractionV { decision, rationale, rejected: Seq::empty() }),
        json::field(JsonV::Object(ms), "rationale"@) is None && json::field(
            JsonV::Object(ms),
            "rejected"@,
        ) is None ==> extraction_in(JsonV::Object(ms)) == Some(
            ExtractionV { decision, rationale: Seq::empty(), rejected: Seq::empty() },
        ),
        forall|items: Seq<JsonV>, ts: Seq<Seq<char>>|
            json::field(JsonV::Object(ms), "rationale"@) == Some(JsonV::Text(rationale))
                && json::field(JsonV::Object(ms), "rejected"@) == Some(JsonV::Array(items))
                && #[trigger] items.len() == #[trigger] ts.len() && (forall|k: int|
                0 <= k < items.len() ==> #[trigger] items[k] == JsonV::Text(ts[k]))
                ==> extraction_in(JsonV::Object(ms)) == Some(
                ExtractionV { decision, rationale, rejected: ts },
            ),
{
    assert forall|items: Seq<JsonV>, ts: Seq<Seq<char>>|
        json::field(JsonV::Object(ms), "rationale"@) == Some(JsonV::Text(rationale)) && json::field(
            JsonV::Object(ms),
            "rejected"@,
        ) == Some(JsonV::Array(items)) && #[trigger] items.len() == #[trigger] ts.len() && (forall|
            k: int,
        |
            0 <= k < items.len() ==> #[trigger] items[k] == JsonV::Text(ts[k])) implies extraction_in(
        JsonV::Object(ms),
    ) == Some(ExtractionV { decision, rationale, rejected: ts }) by {
        lemma_texts(items, ts);
    }
}

proof fn lemma_texts(items: Seq<JsonV>, ts: Seq<Seq<char>>)
    requires
        items.len() == ts.len(),
        forall|k: int| 0 <= k < items.len() ==> #[trigger] items[k] == JsonV::Text(ts[k]),
    ensures
        texts_of(items) == Some(ts),
    decreases items.len(),
{
    if items.len() == 0 {
        assert(ts =~= Seq::empty());
    } else {
        assert forall|k: int| 0 <= k < items.drop_last().len() implies #[trigger] items.drop_last()[k]
            == JsonV::Text(ts.drop_last()[k]) by {
            assert(items[k] == JsonV::Text(ts[k]));
        }
        lemma_texts(items.drop_last(), ts.drop_last());
        assert(items[items.len() - 1] == JsonV::Text(ts[ts.len() - 1]));
        assert(ts.drop_last().push(ts.last()) =~= ts);
    }
}

/// Every item of a list that is a decision with words in it is kept, in order.
pub proof fn all_decisions_of_an_answer_are_kept(items: Seq<JsonV>)
    ensures
        extractions_in(items) == items.filter_map(
            |j: JsonV|
                if extraction_in(j) is Some && text::trimmed(extraction_in(j)->0.decision).len()
                    != 0 {
                    extraction_in(j)
                } else {
                    None
                },
        ),
        decisions_of(JsonV::Array(items)) == Some(extractions_in(items)),
    decreases items.len(),
{
    if items.len() != 0 {
        all_decisions_of_an_answer_are_kept(items.drop_last());
    }
}

/// The decisions of an object are those under `decisions`; an object without such a list is
/// taken for a decision itself.
pub proof fn decisions_stand_in_their_list(ms: Seq<(Seq<char>, JsonV)>, items: Seq<JsonV>)
    ensures
        json::field(JsonV::Object(ms), "decisions"@) == Some(JsonV::Array(items)) ==> decisions_of(
            JsonV::Object(ms),
        ) == Some(extractions_in(items)),
        json::field(JsonV::Object(ms), "decisions"@) is None ==> decisions_of(JsonV::Object(ms))
            == Some(extractions_in(seq![JsonV::Object(ms)])),
{
}

/// What the model said is not questioned: each of its decisions is a candidate with its words,
/// its reasons and what was rejected, of a confidence of 0.9.
pub proof fn what_the_model_said_is_kept(turn_index: usize, d: ExtractionV)
    ensures
        model_candidate(turn_index, d).turn_index == turn_index,
        model_candidate(turn_index, d).text == d.decision,
        model_candidate(turn_index, d).rationale == d.rationale,
        model_candidate(turn_index, d).rejected == d.rejected,
        model_candidate(turn_index, d).confidence == 0x3f66_6666,
        model_candidate(turn_index, d).extractor == "byo-llm-v1"@,
{
}

/// The candidates of a turn are all that the rules found in it, in order.
pub proof fn rules_of_a_turn_are_kept(cands: Seq<CandidateV>, turn_index: usize)
    ensures
        of_turn(cands, turn_index) == cands.filter(|c: CandidateV| c.turn_index == turn_index),
    decreases cands.len(),
{
    reveal(Seq::filter);
    if cands.len() != 0 {
        rules_of_a_turn_are_kept(cands.drop_last(), turn_index);
    }
}

proof fn lemma_augmented(
    rules: Seq<CandidateV>,
    turns: Seq<usize>,
    replies: Seq<Option<Seq<ExtractionV>>>,
    i: int,
    c: CandidateV,
)
    requires
        turns.len() == replies.len(),
        0 <= i < turns.len(),
        turn_candidates(rules, turns[i], replies[i]).contains(c),
    ensures
        augmented(rules, turns, replies).contains(c),
    decreases turns.len(),
{
    let before = augmented(rules, turns.drop_last(), replies.drop_last());
    let more = turn_candidates(rules, turns.last(), replies.last());
    if i < turns.len() - 1 {
        assert(turns.drop_last()[i] == turns[i] && replies.drop_last()[i] == replies[i]);
        lemma_augmented(rules, turns.drop_last(), replies.drop_last(), i, c);
        let k = choose|k: int| 0 <= k < before.len() && before[k] == c;
        assert((before + more)[k] == c);
    } else {
        let k = choose|k: int| 0 <= k < more.len() && more[k] == c;
        assert((before + more)[before.len() + k] == c);
    }
}

/// Every decision that the model made of a turn is kept; where it made none, every one that the
/// rules found in that turn is.
pub proof fn no_decision_is_lost(
    rules: Seq<CandidateV>,
    turns: Seq<usize>,
    replies: Seq<Option<Seq<ExtractionV>>>,
    i: int,
    j: int,
)
    requires
        turns.len() == replies.len(),
        0 <= i < turns.len(),
    ensures
        replies[i] matches Some(ds) ==> (0 <= j < ds.len() ==> augmented(
            rules,
            turns,
            replies,
        ).contains(
            (CandidateV {
                turn_index: turns[i],
                text: ds[j].decision,
                confidence: 0x3f66_6666,
                rationale: ds[j].rationale,
                rejected: ds[j].rejected,
                extractor: "byo-llm-v1"@,
            }),
        )),
        (replies[i] is None || replies[i]->0.len() == 0) && 0 <= j < rules.len()
            && rules[j].turn_index == turns[i] ==> augmented(rules, turns, replies).contains(
            rules[j],
        ),
{
    let part = turn_candidates(rules, turns[i], replies[i]);
    if let Some(ds) = replies[i] {
        if 0 <= j < ds.len() {
            assert(part[j] == model_candidate(turns[i], ds[j]));
            lemma_augmented(rules, turns, replies, i, part[j]);
        }
    }
    if (replies[i] is None || replies[i]->0.len() == 0) && 0 <= j < rules.len()
        && rules[j].turn_index == turns[i] {
        lemma_of_turn(rules, turns[i], j);
        lemma_augmented(rules, turns, replies, i, rules[j]);
    }
}

proof fn lemma_of_turn(cands: Seq<CandidateV>, t: usize, j: int)
    requires
        0 <= j < cands.len(),
        cands[j].turn_index == t,
    ensures
        of_turn(cands, t).contains(cands[j]),
    decreases cands.len(),
{
    let init = cands.drop_last();
    let before = of_turn(init, t);
    let all = of_turn(cands, t);
    if j < init.len() {
        assert(init[j] == cands[j]);
        lemma_of_turn(init, t, j);
        let k = choose|k: int| 0 <= k < before.len() && before[k] == cands[j];
        assert(all[k] == cands[j]);
    } else {
        assert(all[before.len() as int] == cands[j]);
    }
}

/// An answer fails only where it has no text, its text is not JSON, or the JSON is neither a
/// list nor an object.
pub proof fn answers_fail_for_a_reason(provider: Provider, body: JsonV)
    ensures
        answer_text(provider, body) is None ==> response(provider, body) == Err::<
            Seq<ExtractionV>,
            LlmError,
        >(
            if provider == Provider::OpenAi {
                LlmError::NoOpenAiContent
            } else {
                LlmError::NoAnthropicContent
            },
        ),
        answer_text(provider, body) matches Some(content) ==> {
            let cleaned = unfenced(text::trimmed(content));
            &&& json::json_parsed(cleaned) is None <==> response(provider, body) is Err
                && response(provider, body)->Err_0 is NotJson
            &&& json::json_parsed(cleaned) matches Some(v) ==> (v is Array || v is Object
                <==> response(provider, body) is Ok)
        },
{
}

/// The model is asked about every turn in which the rules found a decision, once, and about no
/// other.
pub proof fn turns_with_decisions_are_asked_about(turns: Seq<usize>, cands: Seq<CandidateV>, i: int, j: int)
    requires
        names_turns(turns, cands),
    ensures
        0 <= i < cands.len() ==> turns.contains(cands[i].turn_index),
        0 <= i < turns.len() ==> exists|c: int|
            0 <= c < cands.len() && (#[trigger] cands[c]).turn_index == turns[i],
        0 <= i < j < turns.len() ==> turns[i] < turns[j],
{
    if 0 <= i < turns.len() {
        assert(turns.contains(turns[i]));
    }
}

/// A code fence around JSON is taken off, with or without the name of the language.
pub proof fn fences_are_taken_off(body: Seq<char>, named: bool)
    requires
        body.len() != 0,
        !text::is_space(body[0]),
        !text::is_space(body.last()),
        body[0] != 'j',
    ensures
        unfenced(
            (if named {
                "```json"@
            } else {
                "```"@
            }) + seq!['\n'] + body + seq!['\n'] + "```"@,
        ) == body,
        unfenced(
            (if named {
                "```json"@
            } else {
                "```"@
            }) + body + "```"@,
        ) == body,
{
    reveal_strlit("```json");
    reveal_strlit("```");
    reveal_strlit("json");
    let open = if named {
        "```json"@
    } else {
        "```"@
    };
    let nl = seq!['\n'];
    lemma_fenced(open + nl + body + nl + "```"@, named, nl, body, nl);
    let none = Seq::<char>::empty();
    assert(open + none + body + none + "```"@ =~= open + body + "```"@);
    lemma_fenced(open + none + body + none + "```"@, named, none, body, none);
}

#[verifier::spinoff_prover]
#[verifier::rlimit(40)]
proof fn lemma_fenced(s: Seq<char>, named: bool, lead: Seq<char>, body: Seq<char>, trail: Seq<char>)
    requires
        body.len() != 0,
        !text::is_space(body[0]),
        !text::is_space(body.last()),
        body[0] != 'j',
        lead == Seq::<char>::empty() || lead == seq!['\n'],
        trail == Seq::<char>::empty() || trail == seq!['\n'],
        s == (if named {
            "```json"@
        } else {
            "```"@
        }) + lead + body + trail + "```"@,
    ensures
        unfenced(s) == body,
{
    reveal_strlit("```json");
    reveal_strlit("```");
    reveal_strlit("json");
    let n = s.len() as int;
    let fence = "```"@;
    assert(fence.len() == 3 && fence[0] == '`' && fence[1] == '`' && fence[2] == '`');
    assert(s[0] == '`' && s[1] == '`' && s[2] == '`');
    assert(s[n - 1] == '`');
    let (x, y) = text::trimming_takes_only_space(s);
    assert(x == 0 && y == n) by {
        if x > 0 {
            assert(text::is_space(s[0]));
        }
        if y < n {
            assert(text::is_space(s[n - 1]));
        }
    }
    assert(text::trimmed(s) =~= s);
    assert(s.subrange(0, 3) =~= fence);
    let a = s.skip(3);
    let rest = lead + body + trail + fence;
    if named {
        assert(a.subrange(0, 4) =~= "json"@);
        assert(a.skip(4) =~= rest);
    } else {
        assert(a =~= rest);
        assert(!text::has_prefix(a, "json"@)) by {
            if text::has_prefix(a, "json"@) {
                assert(a.subrange(0, 4)[0] == a[0]);
                assert("json"@[0] == 'j');
            }
        }
    }
    let c = body + trail + fence;
    assert(text::trimmed_start(rest, CharClass::Is('\n')) == c) by {
        if lead.len() == 0 {
            assert(rest =~= c);
            assert(rest[0] == body[0]);
            assert(rest[0] != '\n');
        } else {
            assert(rest[0] == '\n');
            assert(rest.drop_first() =~= c);
            assert(c[0] == body[0]);
            assert(c[0] != '\n');
            assert(text::trimmed_start(c, CharClass::Is('\n')) == c);
        }
    }
    assert(c.subrange(c.len() - 3, c.len() as int) =~= fence);
    let d = c.take(c.len() - 3);
    assert(d =~= body + trail);
    let (p, q) = text::trimming_takes_only_space(d);
    assert(p == 0) by {
        if p > 0 {
            assert(text::is_space(d[0]));
            assert(d[0] == body[0]);
        }
    }
    let m = body.len() as int;
    assert(q == m) by {
        assert(d[m - 1] == body[m - 1]);
        if q < m {
            assert(text::is_space(d[m - 1]));
        }
        if q > m {
            assert(d[q - 1] == '\n');
        }
    }
    assert(d.subrange(0, m) =~= body);
}

/// A decision may also be written as a list of its parts in order, of which the others may be
/// left out; a longer list is none. Whatever has no decision in words, or a part of the wrong
/// sort, is none either.
pub proof fn decisions_are_read_from_lists(
    d: Seq<char>,
    r: Seq<char>,
    items: Seq<JsonV>,
    ms: Seq<(Seq<char>, JsonV)>,
)
    ensures
        extraction_in(JsonV::Array(seq![JsonV::Text(d)])) == Some(
            ExtractionV { decision: d, rationale: Seq::empty(), rejected: Seq::empty() },
        ),
        extraction_in(JsonV::Array(seq![JsonV::Text(d), JsonV::Text(r)])) == Some(
            ExtractionV { decision: d, rationale: r, rejected: Seq::empty() },
        ),
        items.len() > 3 ==> extraction_in(JsonV::Array(items)) is None,
        items.len() == 0 ==> extraction_in(JsonV::Array(items)) is None,
        !(json::field(JsonV::Object(ms), "decision"@) matches Some(JsonV::Text(_))) ==> extraction_in(
            JsonV::Object(ms),
        ) is None,
        (json::field(JsonV::Object(ms), "rationale"@) matches Some(x) && !(x is Text))
            ==> extraction_in(JsonV::Object(ms)) is None,
        (json::field(JsonV::Object(ms), "rejected"@) matches Some(x) && !(x is Array))
            ==> extraction_in(JsonV::Object(ms)) is None,
{
    assert(seq![JsonV::Text(d)][0] == JsonV::Text(d));
    let two = seq![JsonV::Text(d), JsonV::Text(r)];
    assert(two[0] == JsonV::Text(d) && two[1] == JsonV::Text(r));
}

/// What a request asks for besides: no chance in the answer, and an answer in JSON where that can
/// be asked for.
pub proof fn requests_ask_for_sober_answers(model: Seq<char>, content: Seq<char>)
    ensures
        json::field(request(Provider::OpenAi, model, content), "temperature"@) == Some(
            JsonV::Number("0"@),
        ),
        json::field(request(Provider::Anthropic, model, content), "temperature"@) == Some(
            JsonV::Number("0"@),
        ),
        json::field(request(Provider::Anthropic, model, content), "max_tokens"@) == Some(
            JsonV::Number("1024"@),
        ),
        json::field(request(Provider::OpenAi, model, content), "response_format"@) == Some(
            JsonV::Object(seq![("type"@, JsonV::Text("json_object"@))]),
        ),
        system_prompt()
            == "You extract durable engineering DECISIONS from a chat transcript turn. Return ONLY a JSON object {\"decisions\":[...]} (no prose, no fences) where each entry has keys: \"decision\" (one sentence, what was chosen), \"rationale\" (why, may be empty), \"rejected\" (array of alternatives turned down, may be empty). If the turn contains no decision, return {\"decisions\":[]}."@,
{
    reveal_strlit("model");
    reveal_strlit("max_tokens");
    reveal_strlit("temperature");
    reveal_strlit("response_format");
    assert("model"@.len() == 5 && "max_tokens"@.len() == 10 && "temperature"@.len() == 11
        && "response_format"@.len() == 15);
    let a = request(Provider::OpenAi, model, content)->Object_0;
    json::the_first_member_counts(a, "temperature"@, 1);
    json::the_first_member_counts(a, "response_format"@, 2);
    let b = request(Provider::Anthropic, model, content)->Object_0;
    json::the_first_member_counts(b, "max_tokens"@, 1);
    json::the_first_member_counts(b, "temperature"@, 2);
}

/// An answer gives all the decisions in its text, with white space and fences taken off.
pub proof fn answers_give_their_decisions(provider: Provider, body: JsonV, content: Seq<char>, v: JsonV)
    requires
        answer_text(provider, body) == Some(content),
        json::json_parsed(unfenced(text::trimmed(content))) == Some(v),
    ensures
        v matches JsonV::Array(items) ==> response(provider, body) == Ok::<
            Seq<ExtractionV>,
            LlmError,
        >(extractions_in(items)),
        v is Object ==> response(provider, body) == Ok::<Seq<ExtractionV>, LlmError>(
            decisions_of(v)->0,
        ),
        !(v is Array) && !(v is Object) ==> response(provider, body) == Err::<
            Seq<ExtractionV>,
            LlmError,
        >(LlmError::NotArrayOrObject),
{
}

/// What a decision of the model says: all that it holds.
pub proof fn decision_extraction_views_say_all(x: DecisionExtraction)
    ensures
        x@.decision == x.decision@,
        x@.rationale == x.rationale@,
        x@.rejected == text::string_views(x.rejected@),
{
}

/// Where the model made decisions of a turn, those take the place of what the rules found in it.
pub proof fn the_model_comes_before_the_rules(
    rules: Seq<CandidateV>,
    turn_index: usize,
    ds: Seq<ExtractionV>,
    j: int,
)
    requires
        0 <= j < ds.len(),
    ensures
        turn_candidates(rules, turn_index, Some(ds)).len() == ds.len(),
        turn_candidates(rules, turn_index, Some(ds))[j] == model_candidate(turn_index, ds[j]),
        turn_candidates(rules, turn_index, None) == of_turn(rules, turn_index),
{
}

/// Viewing a list keeps all its items, in their order.
pub proof fn extraction_views_keep_all(v: Seq<DecisionExtraction>, i: int)
    requires
        0 <= i < v.len(),
    ensures
        extraction_views(v).len() == v.len(),
        extraction_views(v)[i] == v[i]@,
{
}

} // verus!
