use lore::json::{parse, Json};
use lore::llm::{
    augment, build_request, candidate_turns, parse_response, DecisionExtraction, LlmConfig, LlmError,
    Provider,
};
use lore::decision::Candidate;

fn at<'a>(j: &'a Json, key: &str) -> &'a Json {
    j.get(key).unwrap()
}

fn item(j: &Json, i: usize) -> &Json {
    &j.as_array().unwrap()[i]
}

fn is_text(j: &Json, s: &str) -> bool {
    j.as_text().map(|t| t.as_str()) == Some(s)
}

#[test]
fn build_request_openai_and_anthropic_shapes() {
    let oa = build_request(Provider::OpenAi, "gpt-4o-mini", "Let's use redb.");
    assert!(is_text(at(&oa, "model"), "gpt-4o-mini"));
    assert!(is_text(at(at(&oa, "response_format"), "type"), "json_object"));
    assert!(is_text(at(item(at(&oa, "messages"), 0), "role"), "system"));
    assert!(is_text(at(item(at(&oa, "messages"), 1), "content"), "Let's use redb."));

    let an = build_request(Provider::Anthropic, "haiku-4-5", "Let's use redb.");
    assert!(is_text(at(&an, "model"), "haiku-4-5"));
    assert!(
        matches!(at(&an, "max_tokens"), Json::Number(n) if n == "1024"),
        "Anthropic requires max_tokens"
    );
    assert!(at(&an, "system").as_text().is_some(), "system is top-level for Anthropic");
    assert!(is_text(at(item(at(&an, "messages"), 0), "role"), "user"));
    assert!(an.get("response_format").is_none(), "Anthropic has no response_format");
}

fn obj(members: Vec<(&str, Json)>) -> Json {
    Json::Object(members.into_iter().map(|(k, v)| (k.to_string(), v)).collect())
}

fn completion(content: &str) -> Json {
    obj(vec![(
        "choices",
        Json::Array(vec![obj(vec![(
            "message",
            obj(vec![
                ("role", Json::Text("assistant".to_string())),
                ("content", Json::Text(content.to_string())),
            ]),
        )])]),
    )])
}

fn anthropic(content: &str) -> Json {
    obj(vec![(
        "content",
        Json::Array(vec![obj(vec![
            ("type", Json::Text("text".to_string())),
            ("text", Json::Text(content.to_string())),
        ])]),
    )])
}

fn ok(r: Result<Vec<DecisionExtraction>, LlmError>) -> Vec<DecisionExtraction> {
    match r {
        Ok(v) => v,
        Err(e) => panic!("{e:?}"),
    }
}

#[test]
fn parses_a_json_array_of_decisions() {
    let body = completion(
        r#"[{"decision":"Use redb for the durable store","rationale":"crash-safe, pure-Rust","rejected":["sled","sqlite"]}]"#,
    );
    let got = ok(parse_response(Provider::OpenAi, &body));
    assert_eq!(got.len(), 1);
    assert_eq!(got[0].decision, "Use redb for the durable store");
    assert_eq!(got[0].rejected, vec!["sled", "sqlite"]);
}

#[test]
fn parses_anthropic_content_block() {
    let body = anthropic(r#"{"decisions":[{"decision":"Use redb","rationale":"pure-Rust"}]}"#);
    let got = ok(parse_response(Provider::Anthropic, &body));
    assert_eq!(got.len(), 1);
    assert_eq!(got[0].decision, "Use redb");
    assert!(parse_response(Provider::OpenAi, &body).is_err());
}

#[test]
fn parses_a_single_object_and_a_fenced_block() {
    let body = completion(r#"{"decision":"Adopt BM25 for the lexical fallback"}"#);
    let got = ok(parse_response(Provider::OpenAi, &body));
    assert_eq!(got.len(), 1);
    assert_eq!(got[0].rationale, "", "rationale defaults when omitted");

    let body = completion("```json\n[{\"decision\":\"Pin gix 0.83\"}]\n```");
    let got = ok(parse_response(Provider::OpenAi, &body));
    assert_eq!(got.len(), 1);
    assert_eq!(got[0].decision, "Pin gix 0.83");
}

#[test]
fn empty_array_is_ok_and_garbage_errors() {
    assert_eq!(ok(parse_response(Provider::OpenAi, &completion("[]"))).len(), 0);
    assert_eq!(ok(parse_response(Provider::OpenAi, &completion(r#"[{"foo":1}]"#))).len(), 0);
    assert!(parse_response(Provider::OpenAi, &completion("I could not find a decision.")).is_err());
    assert!(parse_response(Provider::OpenAi, &obj(vec![("choices", Json::Array(vec![]))])).is_err());
}

#[test]
fn each_bad_reply_has_its_error() {
    let none = obj(vec![]);
    assert!(parse_response(Provider::OpenAi, &none).err() == Some(LlmError::NoOpenAiContent));
    assert!(parse_response(Provider::Anthropic, &none).err() == Some(LlmError::NoAnthropicContent));
    assert!(parse_response(Provider::OpenAi, &completion("nope")).err() == Some(LlmError::NotJson(4)));
    assert!(parse_response(Provider::OpenAi, &completion("17")).err() == Some(LlmError::NotArrayOrObject));
}

#[test]
fn config_from_env_needs_all_three() {
    let s = |x: &str| Some(x.to_string());
    assert!(LlmConfig::from_vars(None, s("k"), s("m"), None).is_none());
    assert!(LlmConfig::from_vars(s("http://e"), None, s("m"), None).is_none());
    assert!(LlmConfig::from_vars(s("http://e"), s("k"), None, None).is_none());
    assert!(LlmConfig::from_vars(s("http://e"), s("k"), s(""), None).is_none());
    let c = LlmConfig::from_vars(s("http://e"), s("k"), s("m"), None).unwrap();
    assert!(c.provider == Provider::OpenAi);
    let c = LlmConfig::from_vars(s("http://e"), s("k"), s("m"), s("anthropic")).unwrap();
    assert!(c.provider == Provider::Anthropic);
}

fn cand(i: usize, text: &str) -> Candidate {
    Candidate {
        turn_index: i,
        text: text.to_string(),
        confidence: 0.5f32.to_bits(),
        rationale: String::new(),
        rejected: vec![],
        extractor: "deterministic-v1",
    }
}

#[test]
fn failed_replies_keep_the_rules() {
    let rules = vec![cand(3, "c"), cand(1, "a"), cand(1, "b")];
    let turns = candidate_turns(&rules);
    assert_eq!(turns, vec![1, 3]);
    let replies = vec![
        None,
        Some(vec![DecisionExtraction {
            decision: "x".to_string(),
            rationale: "y".to_string(),
            rejected: vec!["z".to_string()],
        }]),
    ];
    let got = augment(&rules, &turns, &replies);
    let texts: Vec<&str> = got.iter().map(|c| c.text.as_str()).collect();
    assert_eq!(texts, vec!["a", "b", "x"]);
    assert_eq!(got[2].extractor, "byo-llm-v1");
    assert_eq!(f32::from_bits(got[2].confidence), 0.9);
    let kept = augment(&rules, &turns, &vec![Some(vec![]), None]);
    let texts: Vec<&str> = kept.iter().map(|c| c.text.as_str()).collect();
    assert_eq!(texts, vec!["a", "b", "c"]);
}

#[test]
fn json_is_taken_apart() {
    let j = parse(r#"{"a":[1,true,null,"x"],"b":{"c":1.5}}"#).unwrap();
    let a = at(&j, "a").as_array().unwrap();
    assert!(matches!(&a[0], Json::Number(n) if n == "1"));
    assert!(matches!(&a[1], Json::Bool(true)));
    assert!(matches!(&a[2], Json::Null));
    assert!(is_text(&a[3], "x"));
    assert!(matches!(at(at(&j, "b"), "c"), Json::Number(n) if n == "1.5"));
    assert!(parse("{").is_none());
}
