//! Checking that the server runs and has the configured model.

use vstd::prelude::*;

use crate::text;

verus! {

/// A model that the server has.
#[derive(Debug)]
pub struct ModelInfo {
    pub name: String,
}

/// The server's answer to a request for `/api/tags`.
#[derive(Debug)]
pub struct TagsResponse {
    pub models: Vec<ModelInfo>,
}

impl View for TagsResponse {
    type V = Seq<Seq<char>>;

    /// The names of the models.
    open spec fn view(&self) -> Seq<Seq<char>> {
        self.models@.map_values(|m: ModelInfo| m.name@)
    }
}

/// What happened last in a health check.
#[derive(Debug)]
pub enum HealthEvent {
    /// Nothing yet.
    Start,
    /// No request could be made for the URI.
    RequestInvalid(String),
    /// The request could not be sent, or no answer came.
    SendFailed(String),
    /// An answer came with this status line.
    Responded { success: bool, status: String },
    /// The body of the answer could not be read.
    BodyUnreadable(String),
    /// The body of the answer was read.
    BodyRead(String),
    /// The body is not what `/api/tags` answers.
    TagsInvalid(String),
    /// The body names these models.
    TagsParsed(TagsResponse),
}

/// The model of a `HealthEvent`.
pub enum HealthEventView {
    Start,
    RequestInvalid(Seq<char>),
    SendFailed(Seq<char>),
    Responded { success: bool, status: Seq<char> },
    BodyUnreadable(Seq<char>),
    BodyRead(Seq<char>),
    TagsInvalid(Seq<char>),
    TagsParsed(Seq<Seq<char>>),
}

impl View for HealthEvent {
    type V = HealthEventView;

    open spec fn view(&self) -> HealthEventView {
        match self {
            HealthEvent::Start => HealthEventView::Start,
            HealthEvent::RequestInvalid(e) => HealthEventView::RequestInvalid(e@),
            HealthEvent::SendFailed(e) => HealthEventView::SendFailed(e@),
            HealthEvent::Responded { success, status } => HealthEventView::Responded {
                success: *success,
                status: status@,
            },
            HealthEvent::BodyUnreadable(e) => HealthEventView::BodyUnreadable(e@),
            HealthEvent::BodyRead(body) => HealthEventView::BodyRead(body@),
            HealthEvent::TagsInvalid(e) => HealthEventView::TagsInvalid(e@),
            HealthEvent::TagsParsed(tags) => HealthEventView::TagsParsed(tags@),
        }
    }
}

/// What a health check does next.
#[derive(Debug)]
pub enum HealthAction {
    /// Send a GET request with an empty body.
    Get { uri: String },
    /// Read the body of the answer.
    ReadBody,
    /// Parse the body of the answer.
    ParseTags { body: String },
    /// Stop with this result.
    Finish(Result<(), String>),
}

/// The model of a `HealthAction`.
pub enum HealthActionView {
    Get { uri: Seq<char> },
    ReadBody,
    ParseTags { body: Seq<char> },
    Finish(Result<(), Seq<char>>),
}

impl View for HealthAction {
    type V = HealthActionView;

    open spec fn view(&self) -> HealthActionView {
        match self {
            HealthAction::Get { uri } => HealthActionView::Get { uri: uri@ },
            HealthAction::ReadBody => HealthActionView::ReadBody,
            HealthAction::ParseTags { body } => HealthActionView::ParseTags { body: body@ },
            HealthAction::Finish(result) => HealthActionView::Finish(outcome(*result)),
        }
    }
}

/// The model of a result whose error is a message.
pub open spec fn outcome(result: Result<(), String>) -> Result<(), Seq<char>> {
    match result {
        Ok(()) => Ok(()),
        Err(message) => Err(message@),
    }
}

/// The name of a model without its tag: what stands before the first `:`.
pub open spec fn model_base(name: Seq<char>) -> Seq<char> {
    text::before_first(name, ':')
}

/// Whether a model that the server has serves for the wanted one: any tag of
/// it does.
pub open spec fn serves(name: Seq<char>, model: Seq<char>) -> bool {
    model_base(name) == model_base(model) || name == model
}

/// Whether one of the server's models serves for the wanted one.
pub open spec fn model_available(names: Seq<Seq<char>>, model: Seq<char>) -> bool {
    exists|i: int| 0 <= i < names.len() && serves(#[trigger] names[i], model)
}

/// Names in one line, with `separator` between each two.
pub open spec fn joined(names: Seq<Seq<char>>, separator: Seq<char>) -> Seq<char>
    decreases names.len(),
{
    if names.len() == 0 {
        Seq::empty()
    } else if names.len() == 1 {
        names[0]
    } else {
        joined(names.drop_last(), separator) + separator + names.last()
    }
}

/// The result of a health check once the server's models are known.
pub open spec fn availability(names: Seq<Seq<char>>, model: Seq<char>) -> Result<(), Seq<char>> {
    if model_available(names, model) {
        Ok(())
    } else if names.len() == 0 {
        Err("No models installed. Run 'ollama pull "@ + model + "'"@)
    } else {
        Err(
            "Model '"@ + model + "' not found. Available: "@ + joined(names, ", "@)
                + ". Run 'ollama pull "@ + model + "'"@,
        )
    }
}

/// The result of a health check whose request was not answered.
pub open spec fn send_failure(message: Seq<char>) -> Result<(), Seq<char>> {
    if text::contains_part(message, "Connection refused"@) {
        Err("Ollama server is not running. Start with 'ollama serve'."@)
    } else {
        Err("Cannot connect to Ollama: "@ + message)
    }
}

/// What a health check does after an event.
pub open spec fn health_action(
    api_url: Seq<char>,
    model: Seq<char>,
    event: HealthEventView,
) -> HealthActionView {
    match event {
        HealthEventView::Start => HealthActionView::Get { uri: api_url + "/api/tags"@ },
        HealthEventView::RequestInvalid(e) => HealthActionView::Finish(
            Err("Failed to build request: "@ + e),
        ),
        HealthEventView::SendFailed(e) => HealthActionView::Finish(send_failure(e)),
        HealthEventView::Responded { success, status } => if success {
            HealthActionView::ReadBody
        } else {
            HealthActionView::Finish(Err("Ollama API error: "@ + status))
        },
        HealthEventView::BodyUnreadable(e) => HealthActionView::Finish(
            Err("Failed to read response: "@ + e),
        ),
        HealthEventView::BodyRead(body) => HealthActionView::ParseTags { body },
        HealthEventView::TagsInvalid(e) => HealthActionView::Finish(
            Err("Invalid response from Ollama: "@ + e),
        ),
        HealthEventView::TagsParsed(names) => HealthActionView::Finish(
            availability(names, model),
        ),
    }
}

/// The names of the models in one line.
fn join_names(models: &Vec<ModelInfo>, separator: &str) -> (line: String)
    ensures
        line@ == joined(models@.map_values(|m: ModelInfo| m.name@), separator@),
{
    let ghost names = models@.map_values(|m: ModelInfo| m.name@);
    let mut line = String::new();
    let mut i: usize = 0;
    while i < models.len()
        invariant
            i <= models@.len(),
            names == models@.map_values(|m: ModelInfo| m.name@),
            line@ == joined(names.take(i as int), separator@),
        decreases models@.len() - i,
    {
        if i > 0 {
            line.append(separator);
        }
        line.append(models[i].name.as_str());
        proof {
            assert(names.take(i + 1).drop_last() =~= names.take(i as int));
            if i == 0 {
                assert(Seq::<char>::empty() + names[0] =~= names[0]);
            }
        }
        i += 1;
    }
    assert(names.take(i as int) =~= names);
    line
}

/// A model serves for another if and only if their names agree up to where the
/// tag starts, or the name ends, in both.
pub proof fn models_serve_by_their_base(name: Seq<char>, model: Seq<char>)
    ensures
        serves(name, model) <==> exists|k: int|
            {
                &&& 0 <= k <= name.len()
                &&& k <= model.len()
                &&& #[trigger] name.take(k) == model.take(k)
                &&& !model.take(k).contains(':')
                &&& k < name.len() ==> name[k] == ':'
                &&& k < model.len() ==> model[k] == ':'
            },
{
    text::before_first_reaches_the_first(name, ':');
    text::before_first_reaches_the_first(model, ':');
    let n = model_base(model).len() as int;
    if serves(name, model) {
        assert(name.take(n) == model.take(n));
    }
    if exists|k: int|
        {
            &&& 0 <= k <= name.len()
            &&& k <= model.len()
            &&& #[trigger] name.take(k) == model.take(k)
            &&& !model.take(k).contains(':')
            &&& k < name.len() ==> name[k] == ':'
            &&& k < model.len() ==> model[k] == ':'
        } {
        let k = choose|k: int|
            {
                &&& 0 <= k <= name.len()
                &&& k <= model.len()
                &&& #[trigger] name.take(k) == model.take(k)
                &&& !model.take(k).contains(':')
                &&& k < name.len() ==> name[k] == ':'
                &&& k < model.len() ==> model[k] == ':'
            };
        let base = model.take(k);
        lemma_base_of(name, base);
        lemma_base_of(model, base);
    }
}

/// A beginning of a name that holds no `:` and ends at one, or with the name, is
/// the name without its tag.
proof fn lemma_base_of(name: Seq<char>, base: Seq<char>)
    requires
        base.len() <= name.len(),
        base == name.take(base.len() as int),
        !base.contains(':'),
        base.len() < name.len() ==> name[base.len() as int] == ':',
    ensures
        model_base(name) == base,
{
    let rest = name.skip((base.len() + 1) as int);
    text::text_before_first_is_found(base, ':', rest);
    if base.len() < name.len() {
        assert(name =~= base.push(':') + rest);
    } else {
        assert(name =~= base);
    }
}

/// Only the tag is ignored: a model serves for another, be either of them named
/// with a tag or without, if and only if what stands before the tag is the same.
pub proof fn only_the_tag_is_ignored(
    base: Seq<char>,
    tag: Seq<char>,
    other: Seq<char>,
    other_tag: Seq<char>,
)
    requires
        !base.contains(':'),
        !other.contains(':'),
    ensures
        model_base(base) == base,
        model_base(base.push(':') + tag) == base,
        serves(base, other) <==> base == other,
        serves(base.push(':') + tag, other) <==> base == other,
        serves(base, other.push(':') + other_tag) <==> base == other,
        serves(base.push(':') + tag, other.push(':') + other_tag) <==> base == other,
{
    text::text_before_first_is_found(base, ':', tag);
    text::text_before_first_is_found(other, ':', other_tag);
}

/// Joined names are the names in their order, each but the first behind a
/// separator.
pub proof fn joined_names_stand_in_order(
    names: Seq<Seq<char>>,
    name: Seq<char>,
    separator: Seq<char>,
)
    ensures
        joined(Seq::empty(), separator) == Seq::<char>::empty(),
        joined(seq![name], separator) == name,
        names.len() > 0 ==> joined(names.push(name), separator) == joined(names, separator)
            + separator + name,
{
    assert(names.push(name).drop_last() =~= names);
}

/// That a base name is listed says the same of the models and of their names.
proof fn lemma_listed_by_field(models: Seq<ModelInfo>, names: Seq<Seq<char>>, model: Seq<char>)
    requires
        names.len() == models.len(),
        forall|i: int| 0 <= i < models.len() ==> names[i] == #[trigger] models[i].name@,
    ensures
        model_available(names, model) <==> exists|i: int, k: int|
            {
                &&& 0 <= i < models.len()
                &&& 0 <= k <= models[i].name@.len()
                &&& k <= model.len()
                &&& #[trigger] models[i].name@.take(k) == model.take(k)
                &&& !model.take(k).contains(':')
                &&& k < models[i].name@.len() ==> models[i].name@[k] == ':'
                &&& k < model.len() ==> model[k] == ':'
            },
{
    if model_available(names, model) {
        let i = choose|i: int| 0 <= i < names.len() && serves(#[trigger] names[i], model);
        models_serve_by_their_base(names[i], model);
        let k = choose|k: int|
            {
                &&& 0 <= k <= names[i].len()
                &&& k <= model.len()
                &&& #[trigger] names[i].take(k) == model.take(k)
                &&& !model.take(k).contains(':')
                &&& k < names[i].len() ==> names[i][k] == ':'
                &&& k < model.len() ==> model[k] == ':'
            };
        assert(models[i].name@.take(k) == model.take(k));
    }
    if exists|i: int, k: int|
        {
            &&& 0 <= i < models.len()
            &&& 0 <= k <= models[i].name@.len()
            &&& k <= model.len()
            &&& #[trigger] models[i].name@.take(k) == model.take(k)
            &&& !model.take(k).contains(':')
            &&& k < models[i].name@.len() ==> models[i].name@[k] == ':'
            &&& k < model.len() ==> model[k] == ':'
        } {
        let (i, k) = choose|i: int, k: int|
            {
                &&& 0 <= i < models.len()
                &&& 0 <= k <= models[i].name@.len()
                &&& k <= model.len()
                &&& #[trigger] models[i].name@.take(k) == model.take(k)
                &&& !model.take(k).contains(':')
                &&& k < models[i].name@.len() ==> models[i].name@[k] == ':'
                &&& k < model.len() ==> model[k] == ':'
            };
        models_serve_by_their_base(names[i], model);
        assert(names[i].take(k) == model.take(k));
        assert(serves(names[i], model));
    }
}

/// Whether one of the models serves for the wanted one.
fn any_serves(models: &Vec<ModelInfo>, model: &str) -> (found: bool)
    ensures
        found == model_available(models@.map_values(|m: ModelInfo| m.name@), model@),
        found <==> exists|i: int, k: int|
            {
                &&& 0 <= i < models@.len()
                &&& 0 <= k <= models@[i].name@.len()
                &&& k <= model@.len()
                &&& #[trigger] models@[i].name@.take(k) == model@.take(k)
                &&& !model@.take(k).contains(':')
                &&& k < models@[i].name@.len() ==> models@[i].name@[k] == ':'
                &&& k < model@.len() ==> model@[k] == ':'
            },
{
    let ghost names = models@.map_values(|m: ModelInfo| m.name@);
    proof {
        lemma_listed_by_field(models@, names, model@);
    }
    let base = text::split_before(model, ':');
    let mut i: usize = 0;
    while i < models.len()
        invariant
            i <= models@.len(),
            names == models@.map_values(|m: ModelInfo| m.name@),
            base@ == model_base(model@),
            forall|j: int| 0 <= j < i ==> !serves(#[trigger] names[j], model@),
        decreases models@.len() - i,
    {
        let name = models[i].name.as_str();
        assert(names[i as int] == name@);
        let available_base = text::split_before(name, ':');
        if text::same_text(available_base, base) || text::same_text(name, model) {
            proof {
                assert(serves(names[i as int], model@));
                lemma_listed_by_field(models@, names, model@);
            }
            return true;
        }
        i += 1;
    }
    false
}

/// The result of a health check once the server's models are known.
pub fn check_models(tags: &TagsResponse, model: &str) -> (result: Result<(), String>)
    ensures
        outcome(result) == availability(tags@, model@),
        result is Ok <==> exists|i: int, k: int|
            {
                &&& 0 <= i < tags.models@.len()
                &&& 0 <= k <= tags.models@[i].name@.len()
                &&& k <= model@.len()
                &&& #[trigger] tags.models@[i].name@.take(k) == model@.take(k)
                &&& !model@.take(k).contains(':')
                &&& k < tags.models@[i].name@.len() ==> tags.models@[i].name@[k] == ':'
                &&& k < model@.len() ==> model@[k] == ':'
            },
        result matches Err(message) ==> message@ == if tags.models@.len() == 0 {
            "No models installed. Run 'ollama pull "@ + model@ + "'"@
        } else {
            "Model '"@ + model@ + "' not found. Available: "@ + joined(
                tags.models@.map_values(|m: ModelInfo| m.name@),
                ", "@,
            ) + ". Run 'ollama pull "@ + model@ + "'"@
        },
{
    if any_serves(&tags.models, model) {
        return Ok(());
    }
    if tags.models.len() == 0 {
        let message = text::prefixed("No models installed. Run 'ollama pull ", model);
        return Err(text::prefixed(message.as_str(), "'"));
    }
    let mut message = text::prefixed("Model '", model);
    message.append("' not found. Available: ");
    message.append(join_names(&tags.models, ", ").as_str());
    message.append(". Run 'ollama pull ");
    message.append(model);
    message.append("'");
    Err(message)
}

/// The result of a health check whose request was not answered.
pub fn explain_send_failure(message: &str) -> (result: Result<(), String>)
    ensures
        outcome(result) == send_failure(message@),
        result matches Err(explained) && explained@ == if exists|before: Seq<char>, after: Seq<char>|
            message@ == #[trigger] (before + "Connection refused"@ + after) {
            "Ollama server is not running. Start with 'ollama serve'."@
        } else {
            "Cannot connect to Ollama: "@ + message@
        },
{
    if text::contains(message, "Connection refused") {
        Err("Ollama server is not running. Start with 'ollama serve'.".to_owned())
    } else {
        Err(text::prefixed("Cannot connect to Ollama: ", message))
    }
}

/// What a health check of the server at `api_url`, for `model`, does after an
/// event.
pub fn next_health_action(api_url: &str, model: &str, event: HealthEvent) -> (action: HealthAction)
    ensures
        action@ == health_action(api_url@, model@, event@),
        match event {
            HealthEvent::Start => action matches HealthAction::Get { uri } && uri@ == api_url@
                + "/api/tags"@,
            HealthEvent::RequestInvalid(e) => action matches HealthAction::Finish(Err(message))
                && message@ == "Failed to build request: "@ + e@,
            HealthEvent::SendFailed(e) => action matches HealthAction::Finish(Err(message)) && message@
                == if exists|before: Seq<char>, after: Seq<char>|
                e@ == #[trigger] (before + "Connection refused"@ + after) {
                "Ollama server is not running. Start with 'ollama serve'."@
            } else {
                "Cannot connect to Ollama: "@ + e@
            },
            HealthEvent::Responded { success, status } => if success {
                action is ReadBody
            } else {
                action matches HealthAction::Finish(Err(message)) && message@ == "Ollama API error: "@
                    + status@
            },
            HealthEvent::BodyUnreadable(e) => action matches HealthAction::Finish(Err(message))
                && message@ == "Failed to read response: "@ + e@,
            HealthEvent::BodyRead(body) => action matches HealthAction::ParseTags { body: parsed }
                && parsed@ == body@,
            HealthEvent::TagsInvalid(e) => action matches HealthAction::Finish(Err(message))
                && message@ == "Invalid response from Ollama: "@ + e@,
            HealthEvent::TagsParsed(tags) => action matches HealthAction::Finish(result) && {
                &&& result is Ok <==> exists|i: int, k: int|
                    {
                        &&& 0 <= i < tags.models@.len()
                        &&& 0 <= k <= tags.models@[i].name@.len()
                        &&& k <= model@.len()
                        &&& #[trigger] tags.models@[i].name@.take(k) == model@.take(k)
                        &&& !model@.take(k).contains(':')
                        &&& k < tags.models@[i].name@.len() ==> tags.models@[i].name@[k] == ':'
                        &&& k < model@.len() ==> model@[k] == ':'
                    }
                &&& result matches Err(message) ==> message@ == if tags.models@.len() == 0 {
                    "No models installed. Run 'ollama pull "@ + model@ + "'"@
                } else {
                    "Model '"@ + model@ + "' not found. Available: "@ + joined(
                        tags.models@.map_values(|m: ModelInfo| m.name@),
                        ", "@,
                    ) + ". Run 'ollama pull "@ + model@ + "'"@
                }
            },
        },
{
    match event {
        HealthEvent::Start => HealthAction::Get { uri: text::prefixed(api_url, "/api/tags") },
        HealthEvent::RequestInvalid(e) => HealthAction::Finish(
            Err(text::prefixed("Failed to build request: ", e.as_str())),
        ),
        HealthEvent::SendFailed(e) => HealthAction::Finish(explain_send_failure(e.as_str())),
        HealthEvent::Responded { success, status } => {
            if success {
                HealthAction::ReadBody
            } else {
                HealthAction::Finish(Err(text::prefixed("Ollama API error: ", status.as_str())))
            }
        },
        HealthEvent::BodyUnreadable(e) => HealthAction::Finish(
            Err(text::prefixed("Failed to read response: ", e.as_str())),
        ),
        HealthEvent::BodyRead(body) => HealthAction::ParseTags { body },
        HealthEvent::TagsInvalid(e) => HealthAction::Finish(
            Err(text::prefixed("Invalid response from Ollama: ", e.as_str())),
        ),
        HealthEvent::TagsParsed(tags) => HealthAction::Finish(check_models(&tags, model)),
    }
}

/// A health check passes if and only if the server answered with its models and
/// one of them serves for the wanted one.
pub proof fn health_check_passes_iff_model_available(
    api_url: Seq<char>,
    model: Seq<char>,
    event: HealthEventView,
)
    ensures
        health_action(api_url, model, event) == HealthActionView::Finish(Ok(())) <==> (event matches
            HealthEventView::TagsParsed(names) && model_available(names, model)),
{
}

/// A health check passes on the server's list of models if and only if the
/// wanted name and a listed one agree up to where the tag starts, or the name
/// ends, in both. Else it says which model is missing, which ones are there, and
/// how to get it.
pub proof fn health_check_passes_iff_base_is_listed(
    api_url: Seq<char>,
    model: Seq<char>,
    names: Seq<Seq<char>>,
)
    ensures
        ({
            let action = health_action(api_url, model, HealthEventView::TagsParsed(names));
            if exists|i: int, k: int|
                {
                    &&& 0 <= i < names.len()
                    &&& 0 <= k <= names[i].len()
                    &&& k <= model.len()
                    &&& #[trigger] names[i].take(k) == model.take(k)
                    &&& !model.take(k).contains(':')
                    &&& k < names[i].len() ==> names[i][k] == ':'
                    &&& k < model.len() ==> model[k] == ':'
                } {
                action == HealthActionView::Finish(Ok(()))
            } else if names.len() == 0 {
                action == HealthActionView::Finish(
                    Err("No models installed. Run 'ollama pull "@ + model + "'"@),
                )
            } else {
                action == HealthActionView::Finish(
                    Err(
                        "Model '"@ + model + "' not found. Available: "@ + joined(names, ", "@)
                            + ". Run 'ollama pull "@ + model + "'"@,
                    ),
                )
            }
        }),
{
    if model_available(names, model) {
        let i = choose|i: int| 0 <= i < names.len() && serves(#[trigger] names[i], model);
        models_serve_by_their_base(names[i], model);
        let k = choose|k: int|
            {
                &&& 0 <= k <= names[i].len()
                &&& k <= model.len()
                &&& #[trigger] names[i].take(k) == model.take(k)
                &&& !model.take(k).contains(':')
                &&& k < names[i].len() ==> names[i][k] == ':'
                &&& k < model.len() ==> model[k] == ':'
            };
        assert(names[i].take(k) == model.take(k));
    } else {
        assert forall|i: int, k: int|
            {
                &&& 0 <= i < names.len()
                &&& 0 <= k <= names[i].len()
                &&& k <= model.len()
                &&& #[trigger] names[i].take(k) == model.take(k)
                &&& !model.take(k).contains(':')
                &&& k < names[i].len() ==> names[i][k] == ':'
            } implies k < model.len() && model[k] != ':' by {
            models_serve_by_their_base(names[i], model);
            assert(!serves(names[i], model));
        }
    }
}

/// What a health check does before the server's models are known: it asks the
/// server for them, reads and parses the answer, and stops with the reason where
/// anything fails.
pub proof fn health_check_asks_for_the_models(
    api_url: Seq<char>,
    model: Seq<char>,
    message: Seq<char>,
)
    ensures
        health_action(api_url, model, HealthEventView::Start) == (HealthActionView::Get {
            uri: api_url + "/api/tags"@,
        }),
        health_action(api_url, model, HealthEventView::RequestInvalid(message))
            == HealthActionView::Finish(Err("Failed to build request: "@ + message)),
        health_action(api_url, model, HealthEventView::SendFailed(message))
            == HealthActionView::Finish(
            if exists|before: Seq<char>, after: Seq<char>|
                message == #[trigger] (before + "Connection refused"@ + after) {
                Err("Ollama server is not running. Start with 'ollama serve'."@)
            } else {
                Err("Cannot connect to Ollama: "@ + message)
            },
        ),
        health_action(
            api_url,
            model,
            (HealthEventView::Responded { success: true, status: message }),
        ) == HealthActionView::ReadBody,
        health_action(
            api_url,
            model,
            (HealthEventView::Responded { success: false, status: message }),
        ) == HealthActionView::Finish(Err("Ollama API error: "@ + message)),
        health_action(api_url, model, HealthEventView::BodyUnreadable(message))
            == HealthActionView::Finish(Err("Failed to read response: "@ + message)),
        health_action(api_url, model, HealthEventView::BodyRead(message)) == (
        HealthActionView::ParseTags { body: message }),
        health_action(api_url, model, HealthEventView::TagsInvalid(message))
            == HealthActionView::Finish(Err("Invalid response from Ollama: "@ + message)),
{
    text::part_stands_between_two_others(message, "Connection refused"@);
}

/// How the outside world answers a health check: whether a request can be made,
/// what comes of sending it, of reading the body and of parsing it.
pub struct HealthReplies {
    pub request: Result<(), Seq<char>>,
    pub response: Result<(bool, Seq<char>), Seq<char>>,
    pub body: Result<Seq<char>, Seq<char>>,
    pub tags: Result<Seq<Seq<char>>, Seq<char>>,
}

/// The event that an action of a health check leads to.
pub open spec fn health_answer(action: HealthActionView, replies: HealthReplies) -> HealthEventView {
    match action {
        HealthActionView::Get { .. } => match (replies.request, replies.response) {
            (Err(e), _) => HealthEventView::RequestInvalid(e),
            (_, Err(e)) => HealthEventView::SendFailed(e),
            (_, Ok((success, status))) => HealthEventView::Responded { success, status },
        },
        HealthActionView::ReadBody => match replies.body {
            Err(e) => HealthEventView::BodyUnreadable(e),
            Ok(body) => HealthEventView::BodyRead(body),
        },
        HealthActionView::ParseTags { .. } => match replies.tags {
            Err(e) => HealthEventView::TagsInvalid(e),
            Ok(names) => HealthEventView::TagsParsed(names),
        },
        HealthActionView::Finish(_) => HealthEventView::Start,
    }
}

/// How many actions a health check may still take after an event, but for the
/// last one.
pub open spec fn health_actions_left(event: HealthEventView) -> nat {
    match event {
        HealthEventView::Start => 3,
        HealthEventView::Responded { .. } => 2,
        HealthEventView::BodyRead(_) => 1,
        _ => 0,
    }
}

/// The result of a health check from an event on.
pub open spec fn health_run(
    api_url: Seq<char>,
    model: Seq<char>,
    replies: HealthReplies,
    event: HealthEventView,
) -> Result<(), Seq<char>>
    decreases health_actions_left(event),
{
    let action = health_action(api_url, model, event);
    match action {
        HealthActionView::Finish(result) => result,
        _ => health_run(api_url, model, replies, health_answer(action, replies)),
    }
}

/// Every health check comes to an end. Its result is that of the first thing
/// that goes wrong, and else says whether the model is available.
pub proof fn health_check_runs_to_its_end(
    api_url: Seq<char>,
    model: Seq<char>,
    replies: HealthReplies,
)
    ensures
        health_run(api_url, model, replies, HealthEventView::Start) == if replies.request is Err {
            Err("Failed to build request: "@ + replies.request->Err_0)
        } else if replies.response is Err {
            send_failure(replies.response->Err_0)
        } else if !replies.response->Ok_0.0 {
            Err("Ollama API error: "@ + replies.response->Ok_0.1)
        } else if replies.body is Err {
            Err("Failed to read response: "@ + replies.body->Err_0)
        } else if replies.tags is Err {
            Err("Invalid response from Ollama: "@ + replies.tags->Err_0)
        } else {
            availability(replies.tags->Ok_0, model)
        },
{
    reveal_with_fuel(health_run, 4);
}

/// Tags do not matter: two models with the same base name are available
/// together.
pub proof fn tags_do_not_matter(names: Seq<Seq<char>>, model: Seq<char>, other: Seq<char>)
    requires
        model_base(model) == model_base(other),
    ensures
        model_available(names, model) == model_available(names, other),
{
    if model_available(names, model) {
        let i = choose|i: int| 0 <= i < names.len() && serves(#[trigger] names[i], model);
        assert(serves(names[i], other));
    }
    if model_available(names, other) {
        let i = choose|i: int| 0 <= i < names.len() && serves(#[trigger] names[i], other);
        assert(serves(names[i], model));
    }
}

/// A model that the server lists is available, and none is available where the
/// server lists none.
pub proof fn listed_model_is_available(names: Seq<Seq<char>>, model: Seq<char>)
    ensures
        names.contains(model) ==> model_available(names, model),
        names.len() == 0 ==> !model_available(names, model),
{
    if names.contains(model) {
        let i = choose|i: int| 0 <= i < names.len() && names[i] == model;
        assert(serves(names[i], model));
    }
}

} // verus!
