use always_on_memory::config::LlmConfig;
use always_on_memory::llm::{
    completion_request, extract_json_block, first_choice, status_error, try_extract_json_block, CompletionRequest,
};

fn config(provider: &str, api_key: &str) -> LlmConfig {
    LlmConfig {
        provider: provider.to_string(),
        base_url: "http://host:1".to_string(),
        model: "m".to_string(),
        api_key: api_key.to_string(),
    }
}

#[test]
fn ollama_is_asked_to_generate() {
    match completion_request(&config("ollama", "key"), "hi") {
        CompletionRequest::Ollama { url, generate } => {
            assert_eq!(url, "http://host:1/api/generate");
            assert_eq!(generate.model, "m");
            assert_eq!(generate.prompt, "hi");
            assert!(!generate.stream);
            assert_eq!(f64::from_bits(generate.temperature.to_bits()), 0.3);
            assert_eq!(generate.num_predict, 2048);
        }
        other => panic!("{other:?}"),
    }
}

#[test]
fn other_providers_are_asked_to_chat() {
    match completion_request(&config("openai", "key"), "hi") {
        CompletionRequest::OpenAi { url, chat, bearer } => {
            assert_eq!(url, "http://host:1/v1/chat/completions");
            assert_eq!(chat.model, "m");
            assert_eq!(chat.role, "user");
            assert_eq!(chat.content, "hi");
            assert_eq!(f64::from_bits(chat.temperature.to_bits()), 0.3);
            assert_eq!(chat.max_tokens, 2048);
            assert_eq!(bearer, Some("key".to_string()));
        }
        other => panic!("{other:?}"),
    }
    match completion_request(&config("", ""), "hi") {
        CompletionRequest::OpenAi { bearer, .. } => assert_eq!(bearer, None),
        other => panic!("{other:?}"),
    }
}

#[test]
fn failures_are_told_in_words() {
    let ollama = completion_request(&config("ollama", ""), "hi");
    let chat = completion_request(&config("x", ""), "hi");
    assert_eq!(status_error(&ollama, "500 Oops", "b").message(), "ollama returned 500 Oops: b");
    assert_eq!(status_error(&chat, "404", "").message(), "openai-compat returned 404: ");
    assert_eq!(first_choice(&vec![]).unwrap_err().message(), "empty response from LLM");
    assert_eq!(first_choice(&vec!["a".to_string(), "b".to_string()]).unwrap(), "a");
}

#[test]
fn json_is_taken_out_of_a_reply() {
    assert_eq!(extract_json_block("Sure:\n```json\n {\"a\": 1} \n```\nbye"), "{\"a\": 1}");
    assert_eq!(extract_json_block("```\n[1]\n``` and ```x```"), "[1]");
    assert_eq!(extract_json_block("here {\"a\": {}} there"), "{\"a\": {}}");
    assert_eq!(extract_json_block("  plain  "), "plain");
    assert_eq!(extract_json_block("only { opens"), "only { opens");
    // A fence that is not closed is none.
    assert_eq!(extract_json_block("```json {\"a\": 1}"), "{\"a\": 1}");
    assert_eq!(extract_json_block("}{"), "");
    assert_eq!(extract_json_block(""), "");
}

#[test]
fn crossed_braces_hold_nothing() {
    assert_eq!(try_extract_json_block("} é {"), None);
    assert_eq!(try_extract_json_block("}{"), Some(String::new()));
    assert_eq!(try_extract_json_block("x {1} y"), Some("{1}".to_string()));
}
