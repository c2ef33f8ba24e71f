//! Talking to a language model: what is sent, and what is read from the reply.

use crate::binary64::Binary64;
use crate::config::LlmConfig;
use crate::text::{chars_of, find, find_last, same_text, text_of, trim_range};
use crate::text;
use vstd::prelude::*;

verus! {

/// 0.3, the sampling temperature of every request.
pub const TEMPERATURE: u64 = 0x3fd3_3333_3333_3333;

/// The most tokens that a reply may have.
pub const MAX_TOKENS: i32 = 2048;

/// The body of a request to the Ollama API.
#[derive(Debug)]
pub struct OllamaRequest {
    pub model: String,
    pub prompt: String,
    pub stream: bool,
    pub temperature: Binary64,
    pub num_predict: i32,
}

/// The body of a request to an OpenAI-compatible API: one message from the user.
#[derive(Debug)]
pub struct OpenAiRequest {
    pub model: String,
    pub role: String,
    pub content: String,
    pub temperature: Binary64,
    pub max_tokens: i32,
}

/// A request for a completion.
#[derive(Debug)]
pub enum CompletionRequest {
    Ollama { url: String, generate: OllamaRequest },
    OpenAi { url: String, chat: OpenAiRequest, bearer: Option<String> },
}

/// Why a completion failed.
#[derive(Debug)]
pub enum CompletionError {
    /// The server answered with a status other than success.
    Status(String),
    /// The reply held no choice.
    Empty,
}

/// The request that asks the configured model to complete `prompt`: to Ollama where
/// the provider is `ollama`, else to the OpenAI-compatible endpoint, with the API key
/// where there is one.
pub fn completion_request(config: &LlmConfig, prompt: &str) -> (r: CompletionRequest)
    ensures
        config.provider@ == "ollama"@ ==> (r matches CompletionRequest::Ollama { url, generate }
            && url@ == config.base_url@ + "/api/generate"@
            && generate.model@ == config.model@
            && generate.prompt@ == prompt@
            && !generate.stream
            && generate.temperature.bits == TEMPERATURE
            && generate.num_predict == MAX_TOKENS),
        config.provider@ != "ollama"@ ==> (r matches CompletionRequest::OpenAi { url, chat, bearer }
            && url@ == config.base_url@ + "/v1/chat/completions"@
            && chat.model@ == config.model@
            && chat.role@ == "user"@
            && chat.content@ == prompt@
            && chat.temperature.bits == TEMPERATURE
            && chat.max_tokens == MAX_TOKENS
            && (bearer is Some <==> config.api_key@.len() > 0)
            && (bearer matches Some(key) ==> key@ == config.api_key@)),
{
    let mut url: String = config.base_url.clone();
    if same_text(config.provider.as_str(), "ollama") {
        url.append("/api/generate");
        CompletionRequest::Ollama {
            url,
            generate: OllamaRequest {
                model: config.model.clone(),
                prompt: prompt.to_string(),
                stream: false,
                temperature: Binary64::from_bits(TEMPERATURE),
                num_predict: MAX_TOKENS,
            },
        }
    } else {
        url.append("/v1/chat/completions");
        let bearer: Option<String> = if config.api_key.as_str().is_empty() {
            None
        } else {
            Some(config.api_key.clone())
        };
        CompletionRequest::OpenAi {
            url,
            chat: OpenAiRequest {
                model: config.model.clone(),
                role: "user".to_string(),
                content: prompt.to_string(),
                temperature: Binary64::from_bits(TEMPERATURE),
                max_tokens: MAX_TOKENS,
            },
            bearer,
        }
    }
}

/// The error for a reply whose status is not success.
pub fn status_error(request: &CompletionRequest, status: &str, body: &str) -> (r: CompletionError)
    ensures
        r matches CompletionError::Status(message) && message@ == (match request {
            CompletionRequest::Ollama { .. } => "ollama"@,
            CompletionRequest::OpenAi { .. } => "openai-compat"@,
        }) + " returned "@ + status@ + ": "@ + body@,
{
    let mut message: String = match request {
        CompletionRequest::Ollama { .. } => "ollama".to_string(),
        CompletionRequest::OpenAi { .. } => "openai-compat".to_string(),
    };
    message.append(" returned ");
    message.append(status);
    message.append(": ");
    message.append(body);
    CompletionError::Status(message)
}

/// The answer of an OpenAI-compatible reply: the content of its first choice.
pub fn first_choice(choices: &Vec<String>) -> (r: Result<String, CompletionError>)
    ensures
        match r {
            Ok(answer) => choices@.len() > 0 && answer@ == choices@[0]@,
            Err(e) => choices@.len() == 0 && e is Empty,
        },
{
    if choices.len() > 0 {
        Ok(choices[0].clone())
    } else {
        Err(CompletionError::Empty)
    }
}

impl CompletionError {
    /// What went wrong, in words.
    pub open spec fn spec_message(self) -> Seq<char> {
        match self {
            CompletionError::Status(message) => message@,
            CompletionError::Empty => "empty response from LLM"@,
        }
    }

    /// What went wrong, in words.
    pub fn message(&self) -> (r: String)
        ensures
            r@ == self.spec_message(),
    {
        match self {
            CompletionError::Status(message) => message.clone(),
            CompletionError::Empty => "empty response from LLM".to_string(),
        }
    }
}

/// What stands between `open` and the next fence, trimmed.
pub open spec fn fenced(s: Seq<char>, open: Seq<char>) -> Option<Seq<char>> {
    match text::position(s, open) {
        Some(start) => {
            let after: Seq<char> = s.skip(start + open.len());
            match text::position(after, "```"@) {
                Some(end) => Some(text::trimmed(after.take(end))),
                None => None,
            }
        },
        None => None,
    }
}

/// Does a reply without a fenced block keep its first opening brace after its last
/// closing one, with something between? Such a reply has no block to take.
pub open spec fn braces_crossed(s: Seq<char>) -> bool {
    &&& fenced(s, "```json"@) is None
    &&& fenced(s, "```"@) is None
    &&& text::position(s, seq!['{']) matches Some(start)
    &&& text::last_position(s, '}') matches Some(end)
    &&& start > end + 1
}

/// The JSON in a reply: what a fenced block holds, else what stands from the first
/// opening brace to the last closing one, else all of it, trimmed.
pub open spec fn json_block(s: Seq<char>) -> Seq<char> {
    match fenced(s, "```json"@) {
        Some(block) => block,
        None => match fenced(s, "```"@) {
            Some(block) => block,
            None => match (text::position(s, seq!['{']), text::last_position(s, '}')) {
                (Some(start), Some(end)) => s.subrange(start, end + 1),
                _ => text::trimmed(s),
            },
        },
    }
}

fn fenced_block(s: &Vec<char>, open: &str) -> (r: Option<String>)
    ensures
        match r {
            Some(block) => fenced(s@, open@) == Some(block@),
            None => fenced(s@, open@) is None,
        },
{
    let pattern: Vec<char> = chars_of(open);
    match find(s, &pattern) {
        Some(start) => {
            let n: usize = s.len();
            let from: usize = start + pattern.len();
            let mut after: Vec<char> = Vec::new();
            let mut i: usize = from;
            while i < n
                invariant
                    from <= i <= n == s@.len(),
                    after@ == s@.subrange(from as int, i as int),
                decreases n - i,
            {
                after.push(s[i]);
                i = i + 1;
            }
            assert(after@ =~= s@.skip(from as int));
            match find(&after, &chars_of("```")) {
                Some(end) => {
                    assert(after@.subrange(0, end as int) =~= after@.take(end as int));
                    Some(trim_range(&after, 0, end))
                },
                None => None,
            }
        },
        None => None,
    }
}

/// The JSON in a reply of a language model, which likes to wrap it in a fenced block.
pub fn extract_json_block(s: &str) -> (r: String)
    requires
        !braces_crossed(s@),
    ensures
        r@ == json_block(s@),
{
    match try_extract_json_block(s) {
        Some(block) => block,
        None => String::new(),
    }
}

/// The JSON in a reply, or nothing where its braces are crossed.
pub fn try_extract_json_block(s: &str) -> (r: Option<String>)
    ensures
        match r {
            Some(block) => !braces_crossed(s@) && block@ == json_block(s@),
            None => braces_crossed(s@),
        },
{
    let chars: Vec<char> = chars_of(s);
    if let Some(block) = fenced_block(&chars, "```json") {
        return Some(block);
    }
    if let Some(block) = fenced_block(&chars, "```") {
        return Some(block);
    }
    let brace: Vec<char> = vec!['{'];
    assert(brace@ =~= seq!['{']);
    if let Some(start) = find(&chars, &brace) {
        if let Some(end) = find_last(&chars, '}') {
            let stop: usize = end + 1;
            if start > stop {
                return None;
            }
            return Some(text_of(&chars, start, stop));
        }
    }
    assert(chars@.subrange(0, chars@.len() as int) =~= chars@);
    Some(trim_range(&chars, 0, chars.len()))
}

// ---- Laws ----

/// A fenced block is what stands between the first opening and the next fence, without the
/// white space at its ends; there is none where either is missing.
pub proof fn a_fenced_block_stands_between_fences(s: Seq<char>, open: Seq<char>)
    ensures
        match text::position(s, open) {
            None => fenced(s, open) is None,
            Some(i) => match text::position(s.skip(i + open.len()), "```"@) {
                None => fenced(s, open) is None,
                Some(j) => {
                    &&& 0 <= i
                    &&& 0 <= j
                    &&& i + open.len() + j <= s.len()
                    &&& fenced(s, open) == Some(text::trimmed(s.subrange(i + open.len(), i + open.len() + j)))
                },
            },
        },
{
    text::a_pattern_is_found_where_it_first_stands(s, open);
    if let Some(i) = text::position(s, open) {
        let after: Seq<char> = s.skip(i + open.len());
        text::a_pattern_is_found_where_it_first_stands(after, "```"@);
        if let Some(j) = text::position(after, "```"@) {
            assert(after.take(j) =~= s.subrange(i + open.len(), i + open.len() + j));
        }
    }
}

/// What is taken from a reply: a block fenced as JSON before any other fenced block, without
/// one what stands from the first opening brace to the last closing one, and without braces
/// the whole reply without the white space at its ends.
pub proof fn json_is_taken_from_where_it_stands(s: Seq<char>)
    ensures
        fenced(s, "```json"@) is Some ==> Some(json_block(s)) == fenced(s, "```json"@),
        fenced(s, "```json"@) is None && fenced(s, "```"@) is Some ==> Some(json_block(s)) == fenced(s, "```"@),
        fenced(s, "```json"@) is None && fenced(s, "```"@) is None && !(s.contains('{') && s.contains('}'))
            ==> json_block(s) == text::trimmed(s) && !braces_crossed(s),
        fenced(s, "```json"@) is None && fenced(s, "```"@) is None ==> forall|i: int, j: int|
            {
                &&& 0 <= i < s.len() && s[i] == '{'
                &&& 0 <= j < s.len() && s[j] == '}'
                &&& forall|k: int| 0 <= k < i ==> s[k] != '{'
                &&& forall|k: int| j < k < s.len() ==> s[k] != '}'
            } ==> (#[trigger] s.subrange(i, j + 1)) == json_block(s) && (braces_crossed(s) <==> i > j + 1),
        fenced(s, "```json"@) is Some || fenced(s, "```"@) is Some ==> !braces_crossed(s),
{
    let open: Seq<char> = seq!['{'];
    text::a_pattern_is_found_where_it_first_stands(s, open);
    text::the_last_position_is_the_last(s, '}');
    assert forall|k: int| 0 <= k < s.len() implies (#[trigger] s[k] == '{') == (s.subrange(k, k + 1) == open) by {
        if s[k] == '{' {
            assert(s.subrange(k, k + 1) =~= open);
        } else {
            assert(s.subrange(k, k + 1)[0] == s[k]);
        }
    }
    if let Some(p) = text::position(s, open) {
        assert(s[p] == '{');
        assert forall|k: int| 0 <= k < p implies s[k] != '{' by {
            assert(s.subrange(k, k + open.len()) != open);
        }
    } else {
        assert forall|k: int| 0 <= k < s.len() implies s[k] != '{' by {
            assert(s.subrange(k, k + open.len()) != open);
        }
    }
}

/// Requests are sent with a temperature of 0.3, and replies have at most 2048 tokens.
pub proof fn requests_have_these_limits()
    ensures
        TEMPERATURE == 0x3fd3_3333_3333_3333,
        MAX_TOKENS == 2048,
{
}

/// What went wrong is what the server said, or that it said nothing.
pub proof fn errors_say_what_went_wrong(message: String)
    ensures
        CompletionError::Status(message).spec_message() == message@,
        CompletionError::Empty.spec_message() == "empty response from LLM"@,
{
}

} // verus!
