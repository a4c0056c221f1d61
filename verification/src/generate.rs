//! Asking the server for a completion.

use vstd::prelude::*;

use crate::text;

verus! {

/// The options of a request for a completion.
#[derive(Debug)]
pub struct GenerateOptions {
    /// How many tokens to predict at most.
    pub num_predict: Option<i32>,
    /// The sampling temperature, in thousandths.
    pub temperature_millis: Option<u32>,
    /// Strings at which the prediction stops.
    pub stop: Option<Vec<String>>,
}

/// The body of a request for `/api/generate`.
#[derive(Debug)]
pub struct GenerateRequest {
    pub model: String,
    pub prompt: String,
    pub stream: bool,
    pub options: Option<GenerateOptions>,
}

/// The server's answer to a request for `/api/generate`.
#[derive(Debug)]
pub struct GenerateResponse {
    pub response: String,
    pub done: bool,
}

/// The model of the `GenerateOptions`.
#[verifier::ext_equal]
pub struct OptionsView {
    pub num_predict: Option<int>,
    pub temperature_millis: Option<int>,
    pub stop: Option<Seq<Seq<char>>>,
}

impl View for GenerateOptions {
    type V = OptionsView;

    open spec fn view(&self) -> OptionsView {
        OptionsView {
            num_predict: match self.num_predict {
                Some(n) => Some(n as int),
                None => None,
            },
            temperature_millis: match self.temperature_millis {
                Some(t) => Some(t as int),
                None => None,
            },
            stop: match self.stop {
                Some(stop) => Some(stop@.map_values(|s: String| s@)),
                None => None,
            },
        }
    }
}

/// The model of a `GenerateRequest`.
#[verifier::ext_equal]
pub struct RequestView {
    pub model: Seq<char>,
    pub prompt: Seq<char>,
    pub stream: bool,
    pub options: Option<OptionsView>,
}

impl View for GenerateRequest {
    type V = RequestView;

    open spec fn view(&self) -> RequestView {
        RequestView {
            model: self.model@,
            prompt: self.prompt@,
            stream: self.stream,
            options: match self.options {
                Some(options) => Some(options@),
                None => None,
            },
        }
    }
}

/// What happened last in fetching a completion.
#[derive(Debug)]
pub enum FetchEvent {
    /// Nothing yet.
    Start,
    /// The request could not be written, made or sent, or the answer could not
    /// be read or parsed.
    Failed(String),
    /// An answer came with this status line and this body.
    Replied { success: bool, status: String, body: String },
    /// The body is this response.
    Parsed(GenerateResponse),
}

/// The model of a `FetchEvent`.
pub enum FetchEventView {
    Start,
    Failed(Seq<char>),
    Replied { success: bool, status: Seq<char>, body: Seq<char> },
    Parsed(Seq<char>),
}

impl View for FetchEvent {
    type V = FetchEventView;

    open spec fn view(&self) -> FetchEventView {
        match self {
            FetchEvent::Start => FetchEventView::Start,
            FetchEvent::Failed(e) => FetchEventView::Failed(e@),
            FetchEvent::Replied { success, status, body } => FetchEventView::Replied {
                success: *success,
                status: status@,
                body: body@,
            },
            FetchEvent::Parsed(response) => FetchEventView::Parsed(response.response@),
        }
    }
}

/// What fetching a completion does next.
#[derive(Debug)]
pub enum FetchAction {
    /// Send a POST request with this body.
    Post { uri: String, content_type: String, request: GenerateRequest },
    /// Parse the body of the answer.
    ParseResponse { body: String },
    /// Stop with this result.
    Finish(Result<String, String>),
}

/// The model of a `FetchAction`.
#[verifier::ext_equal]
pub enum FetchActionView {
    Post { uri: Seq<char>, content_type: Seq<char>, request: RequestView },
    ParseResponse { body: Seq<char> },
    Finish(Result<Seq<char>, Seq<char>>),
}

impl View for FetchAction {
    type V = FetchActionView;

    open spec fn view(&self) -> FetchActionView {
        match self {
            FetchAction::Post { uri, content_type, request } => FetchActionView::Post {
                uri: uri@,
                content_type: content_type@,
                request: request@,
            },
            FetchAction::ParseResponse { body } => FetchActionView::ParseResponse { body: body@ },
            FetchAction::Finish(result) => FetchActionView::Finish(fetched(*result)),
        }
    }
}

/// The model of a result of fetching a completion.
pub open spec fn fetched(result: Result<String, String>) -> Result<Seq<char>, Seq<char>> {
    match result {
        Ok(completion) => Ok(completion@),
        Err(message) => Err(message@),
    }
}

/// Where a prediction stops: at an empty line, and at any marker of the prompt.
pub open spec fn stop_strings() -> Seq<Seq<char>> {
    seq!["\n\n"@, "<|fim_prefix|>"@, "<|fim_suffix|>"@, "<|fim_middle|>"@]
}

/// The request for the completion of a prompt.
pub open spec fn generate_request(model: Seq<char>, prompt: Seq<char>) -> RequestView {
    RequestView {
        model,
        prompt,
        stream: false,
        options: Some(
            OptionsView {
                num_predict: Some(256),
                temperature_millis: Some(200),
                stop: Some(stop_strings()),
            },
        ),
    }
}

/// What fetching a completion does after an event.
pub open spec fn fetch_action(
    api_url: Seq<char>,
    model: Seq<char>,
    prompt: Seq<char>,
    event: FetchEventView,
) -> FetchActionView {
    match event {
        FetchEventView::Start => FetchActionView::Post {
            uri: api_url + "/api/generate"@,
            content_type: "application/json"@,
            request: generate_request(model, prompt),
        },
        FetchEventView::Failed(e) => FetchActionView::Finish(Err(e)),
        FetchEventView::Replied { success, status, body } => if success {
            FetchActionView::ParseResponse { body }
        } else {
            FetchActionView::Finish(Err("Ollama API error: "@ + status + " "@ + body))
        },
        FetchEventView::Parsed(completion) => FetchActionView::Finish(Ok(completion)),
    }
}

/// The request for the completion of a prompt.
pub fn make_request(model: &str, prompt: &str) -> (request: GenerateRequest)
    ensures
        request@ == generate_request(model@, prompt@),
        ({
            &&& request.model@ == model@
            &&& request.prompt@ == prompt@
            &&& !request.stream
            &&& request.options matches Some(options) && {
                &&& options.num_predict == Some(256i32)
                &&& options.temperature_millis == Some(200u32)
                &&& options.stop matches Some(stop) && {
                    &&& stop@.len() == 4
                    &&& stop@[0]@ == "\n\n"@
                    &&& stop@[1]@ == "<|fim_prefix|>"@
                    &&& stop@[2]@ == "<|fim_suffix|>"@
                    &&& stop@[3]@ == "<|fim_middle|>"@
                }
            }
        }),
{
    let mut stop: Vec<String> = Vec::new();
    stop.push("\n\n".to_owned());
    stop.push("<|fim_prefix|>".to_owned());
    stop.push("<|fim_suffix|>".to_owned());
    stop.push("<|fim_middle|>".to_owned());
    assert(stop@.map_values(|s: String| s@) =~= stop_strings());
    GenerateRequest {
        model: model.to_owned(),
        prompt: prompt.to_owned(),
        stream: false,
        options: Some(
            GenerateOptions {
                num_predict: Some(256),
                temperature_millis: Some(200),
                stop: Some(stop),
            },
        ),
    }
}

/// What fetching the completion of `prompt` from the server at `api_url` does
/// after an event.
pub fn next_fetch_action(
    api_url: &str,
    model: &str,
    prompt: &str,
    event: FetchEvent,
) -> (action: FetchAction)
    ensures
        action@ == fetch_action(api_url@, model@, prompt@, event@),
        match event {
            FetchEvent::Start => action matches FetchAction::Post { uri, content_type, request } && {
                &&& uri@ == api_url@ + "/api/generate"@
                &&& content_type@ == "application/json"@
                &&& request.model@ == model@
                &&& request.prompt@ == prompt@
                &&& !request.stream
                &&& request.options matches Some(options) && {
                    &&& options.num_predict == Some(256i32)
                    &&& options.temperature_millis == Some(200u32)
                    &&& options.stop matches Some(stop) && {
                        &&& stop@.len() == 4
                        &&& stop@[0]@ == "\n\n"@
                        &&& stop@[1]@ == "<|fim_prefix|>"@
                        &&& stop@[2]@ == "<|fim_suffix|>"@
                        &&& stop@[3]@ == "<|fim_middle|>"@
                    }
                }
            },
            FetchEvent::Failed(e) => action matches FetchAction::Finish(Err(message)) && message@ == e@,
            FetchEvent::Replied { success, status, body } => if success {
                action matches FetchAction::ParseResponse { body: parsed } && parsed@ == body@
            } else {
                action matches FetchAction::Finish(Err(message)) && message@ == "Ollama API error: "@
                    + status@ + " "@ + body@
            },
            FetchEvent::Parsed(response) => action matches FetchAction::Finish(Ok(completion))
                && completion@ == response.response@,
        },
{
    match event {
        FetchEvent::Start => FetchAction::Post {
            uri: text::prefixed(api_url, "/api/generate"),
            content_type: "application/json".to_owned(),
            request: make_request(model, prompt),
        },
        FetchEvent::Failed(e) => FetchAction::Finish(Err(e)),
        FetchEvent::Replied { success, status, body } => {
            if success {
                FetchAction::ParseResponse { body }
            } else {
                let mut message = text::prefixed("Ollama API error: ", status.as_str());
                message.append(" ");
                message.append(body.as_str());
                FetchAction::Finish(Err(message))
            }
        },
        FetchEvent::Parsed(response) => FetchAction::Finish(Ok(response.response)),
    }
}

/// The request that is posted carries the configured model and the prompt
/// unchanged, whatever they are. It asks for no stream, for at most 256 tokens at
/// a temperature of 0.2, and for a stop at an empty line or a marker of the prompt.
pub proof fn request_carries_model_and_prompt(
    api_url: Seq<char>,
    model: Seq<char>,
    prompt: Seq<char>,
)
    ensures
        fetch_action(api_url, model, prompt, FetchEventView::Start) matches FetchActionView::Post {
            uri,
            content_type,
            request,
        } && {
            &&& uri == api_url + "/api/generate"@
            &&& content_type == "application/json"@
            &&& request.model == model
            &&& request.prompt == prompt
            &&& !request.stream
            &&& request.options matches Some(options) && {
                &&& options.num_predict == Some(256int)
                &&& options.temperature_millis == Some(200int)
                &&& options.stop == Some(
                    seq!["\n\n"@, "<|fim_prefix|>"@, "<|fim_suffix|>"@, "<|fim_middle|>"@],
                )
            }
        },
{
}

/// What was asked of the server can be read off the request: fetches that post
/// the same request to the same address are for the same server, model and prompt.
pub proof fn requests_differ_with_their_input(
    api_url: Seq<char>,
    model: Seq<char>,
    prompt: Seq<char>,
    other_url: Seq<char>,
    other_model: Seq<char>,
    other_prompt: Seq<char>,
)
    requires
        fetch_action(api_url, model, prompt, FetchEventView::Start) == fetch_action(
            other_url,
            other_model,
            other_prompt,
            FetchEventView::Start,
        ),
    ensures
        api_url == other_url,
        model == other_model,
        prompt == other_prompt,
{
    let path = "/api/generate"@;
    assert((api_url + path).len() == (other_url + path).len());
    assert((api_url + path).take(api_url.len() as int) =~= api_url);
    assert((other_url + path).take(other_url.len() as int) =~= other_url);
}

/// What fetching a completion does once the request was posted: the body of an
/// answer that reports success is parsed as it came, its response is the
/// completion, and a refusal is reported with its status and body.
pub proof fn answers_are_passed_on(
    api_url: Seq<char>,
    model: Seq<char>,
    prompt: Seq<char>,
    status: Seq<char>,
    body: Seq<char>,
)
    ensures
        fetch_action(api_url, model, prompt, FetchEventView::Failed(body))
            == FetchActionView::Finish(Err(body)),
        fetch_action(
            api_url,
            model,
            prompt,
            (FetchEventView::Replied { success: true, status, body }),
        ) == (FetchActionView::ParseResponse { body }),
        fetch_action(
            api_url,
            model,
            prompt,
            (FetchEventView::Replied { success: false, status, body }),
        ) == FetchActionView::Finish(Err("Ollama API error: "@ + status + " "@ + body)),
        fetch_action(api_url, model, prompt, FetchEventView::Parsed(body))
            == FetchActionView::Finish(Ok(body)),
{
}

/// A completion comes of nothing but a parsed response, and is its text.
pub proof fn completion_is_the_response(
    api_url: Seq<char>,
    model: Seq<char>,
    prompt: Seq<char>,
    event: FetchEventView,
    completion: Seq<char>,
)
    ensures
        fetch_action(api_url, model, prompt, event) == FetchActionView::Finish(Ok(completion))
            <==> event == FetchEventView::Parsed(completion),
{
}

/// How the outside world answers a fetch: what comes of sending the request and
/// reading the answer, and of parsing it.
pub struct FetchReplies {
    pub reply: Result<(bool, Seq<char>, Seq<char>), Seq<char>>,
    pub response: Result<Seq<char>, Seq<char>>,
}

/// The event that an action of a fetch leads to.
pub open spec fn fetch_answer(action: FetchActionView, replies: FetchReplies) -> FetchEventView {
    match action {
        FetchActionView::Post { .. } => match replies.reply {
            Err(e) => FetchEventView::Failed(e),
            Ok((success, status, body)) => FetchEventView::Replied { success, status, body },
        },
        FetchActionView::ParseResponse { .. } => match replies.response {
            Err(e) => FetchEventView::Failed(e),
            Ok(completion) => FetchEventView::Parsed(completion),
        },
        FetchActionView::Finish(_) => FetchEventView::Start,
    }
}

/// How many actions a fetch may still take after an event, but for the last one.
pub open spec fn fetch_actions_left(event: FetchEventView) -> nat {
    match event {
        FetchEventView::Start => 2,
        FetchEventView::Replied { .. } => 1,
        _ => 0,
    }
}

/// The result of a fetch from an event on.
pub open spec fn fetch_run(
    api_url: Seq<char>,
    model: Seq<char>,
    prompt: Seq<char>,
    replies: FetchReplies,
    event: FetchEventView,
) -> Result<Seq<char>, Seq<char>>
    decreases fetch_actions_left(event),
{
    let action = fetch_action(api_url, model, prompt, event);
    match action {
        FetchActionView::Finish(result) => result,
        _ => fetch_run(api_url, model, prompt, replies, fetch_answer(action, replies)),
    }
}

/// Every fetch comes to an end. Its result is the first failure, the refusal of
/// the server with its status and body, or the text of the response.
pub proof fn fetch_runs_to_its_end(
    api_url: Seq<char>,
    model: Seq<char>,
    prompt: Seq<char>,
    replies: FetchReplies,
)
    ensures
        fetch_run(api_url, model, prompt, replies, FetchEventView::Start) == match replies.reply {
            Err(e) => Err(e),
            Ok((success, status, body)) => if success {
                replies.response
            } else {
                Err("Ollama API error: "@ + status + " "@ + body)
            },
        },
{
    reveal_with_fuel(fetch_run, 3);
}

} // verus!
