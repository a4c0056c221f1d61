use ollama_completion::FetchAction;
use ollama_completion::FetchEvent;
use ollama_completion::GenerateResponse;
use ollama_completion::HealthAction;
use ollama_completion::HealthEvent;
use ollama_completion::ModelInfo;
use ollama_completion::OllamaCompletionProvider;
use ollama_completion::OllamaConnectionStatus;
use ollama_completion::RefreshEvent;
use ollama_completion::RefreshStep;
use ollama_completion::RefreshTask;
use ollama_completion::TagsResponse;
use ollama_completion::Anchor;
use ollama_completion::Bias;
use ollama_completion::EntityId;

type Provider = OllamaCompletionProvider<(), ()>;

fn tags(names: &[&str]) -> TagsResponse {
    TagsResponse {
        models: names.iter().map(|n| ModelInfo { name: n.to_string() }).collect(),
    }
}

fn health(model: &str, event: HealthEvent) -> Result<(), String> {
    match Provider::check_health("http://localhost:11434", model, event) {
        HealthAction::Finish(result) => result,
        other => panic!("not finished: {:?}", other),
    }
}

fn models(model: &str, names: &[&str]) -> Result<(), String> {
    health(model, HealthEvent::TagsParsed(tags(names)))
}

#[test]
fn health_check_asks_for_the_tags() {
    match Provider::check_health("http://custom:8080", "m", HealthEvent::Start) {
        HealthAction::Get { uri } => assert_eq!(uri, "http://custom:8080/api/tags"),
        other => panic!("{:?}", other),
    }
    let ok = HealthEvent::Responded { success: true, status: "200 OK".to_string() };
    assert!(matches!(Provider::check_health("u", "m", ok), HealthAction::ReadBody));
    match Provider::check_health("u", "m", HealthEvent::BodyRead("{}".to_string())) {
        HealthAction::ParseTags { body } => assert_eq!(body, "{}"),
        other => panic!("{:?}", other),
    }
}

#[test]
fn health_check_explains_each_failure() {
    let e = || "boom".to_string();
    assert_eq!(
        health("m", HealthEvent::RequestInvalid(e())),
        Err("Failed to build request: boom".to_string())
    );
    assert_eq!(
        health("m", HealthEvent::SendFailed(e())),
        Err("Cannot connect to Ollama: boom".to_string())
    );
    assert_eq!(
        health("m", HealthEvent::SendFailed("tcp: Connection refused (111)".to_string())),
        Err("Ollama server is not running. Start with 'ollama serve'.".to_string())
    );
    assert_eq!(
        health(
            "m",
            HealthEvent::Responded { success: false, status: "404 Not Found".to_string() }
        ),
        Err("Ollama API error: 404 Not Found".to_string())
    );
    assert_eq!(
        health("m", HealthEvent::BodyUnreadable(e())),
        Err("Failed to read response: boom".to_string())
    );
    assert_eq!(
        health("m", HealthEvent::TagsInvalid(e())),
        Err("Invalid response from Ollama: boom".to_string())
    );
}

#[test]
fn model_is_available_under_any_tag() {
    assert_eq!(models("qwen2.5-coder:7b", &["codellama:7b", "qwen2.5-coder:7b"]), Ok(()));
    assert_eq!(models("qwen2.5-coder", &["qwen2.5-coder:7b"]), Ok(()));
    assert_eq!(models("qwen2.5-coder:7b", &["qwen2.5-coder"]), Ok(()));
    assert_eq!(models("qwen2.5-coder:7b", &["qwen2.5-coder:1b"]), Ok(()));
}

#[test]
fn missing_model_is_named() {
    assert_eq!(
        models("qwen2.5-coder:7b", &[]),
        Err("No models installed. Run 'ollama pull qwen2.5-coder:7b'".to_string())
    );
    assert_eq!(
        models("qwen2.5-coder:7b", &["codellama:7b", "llama3"]),
        Err(
            "Model 'qwen2.5-coder:7b' not found. Available: codellama:7b, llama3. \
             Run 'ollama pull qwen2.5-coder:7b'"
                .to_string()
        )
    );
    assert_eq!(
        models("a", &["ab"]),
        Err("Model 'a' not found. Available: ab. Run 'ollama pull a'".to_string())
    );
}

#[test]
fn fetch_posts_the_prompt() {
    let action = Provider::fetch_completion("http://custom:8080", "m", "p", FetchEvent::Start);
    match action {
        FetchAction::Post { uri, content_type, request } => {
            assert_eq!(uri, "http://custom:8080/api/generate");
            assert_eq!(content_type, "application/json");
            assert_eq!(request.model, "m");
            assert_eq!(request.prompt, "p");
            assert!(!request.stream);
            let options = request.options.unwrap();
            assert_eq!(options.num_predict, Some(256));
            assert_eq!(options.temperature_millis.map(|t| t as f32 / 1000.0), Some(0.2f32));
            assert_eq!(
                options.stop.unwrap(),
                vec!["\n\n", "<|fim_prefix|>", "<|fim_suffix|>", "<|fim_middle|>"]
            );
        }
        other => panic!("{:?}", other),
    }
}

#[test]
fn fetch_gives_the_response_or_the_reason() {
    let finish = |event: FetchEvent| match Provider::fetch_completion("u", "m", "p", event) {
        FetchAction::Finish(result) => result,
        other => panic!("not finished: {:?}", other),
    };
    assert_eq!(
        finish(FetchEvent::Parsed(GenerateResponse {
            response: "completed code".to_string(),
            done: true,
        })),
        Ok("completed code".to_string())
    );
    assert_eq!(finish(FetchEvent::Failed("boom".to_string())), Err("boom".to_string()));
    assert_eq!(
        finish(FetchEvent::Replied {
            success: false,
            status: "500 Internal Server Error".to_string(),
            body: "oops".to_string(),
        }),
        Err("Ollama API error: 500 Internal Server Error oops".to_string())
    );
    let ok = FetchEvent::Replied {
        success: true,
        status: "200 OK".to_string(),
        body: "{}".to_string(),
    };
    match Provider::fetch_completion("u", "m", "p", ok) {
        FetchAction::ParseResponse { body } => assert_eq!(body, "{}"),
        other => panic!("{:?}", other),
    }
}

fn task(should_health_check: bool) -> RefreshTask {
    RefreshTask {
        buffer_id: EntityId { id: 1 },
        cursor_position: Anchor { timestamp: 1, offset: 0, bias: Bias::Left, buffer_id: None },
        prompt: "p".to_string(),
        prompt_hash: 1,
        api_url: "u".to_string(),
        model: "m".to_string(),
        should_health_check,
    }
}

fn steps(
    should_health_check: bool,
    health: Result<(), String>,
    fetch: Result<String, String>,
) -> Vec<String> {
    let task = task(should_health_check);
    let mut event = RefreshEvent::Start;
    let mut names = Vec::new();
    loop {
        let (name, next) = match task.next_step(event) {
            RefreshStep::Wait { millis } => {
                (format!("wait {}", millis), RefreshEvent::TimerElapsed)
            }
            RefreshStep::CheckHealth { api_url, model } => (
                format!("check {} {}", api_url, model),
                RefreshEvent::HealthChecked(health.clone()),
            ),
            RefreshStep::RecordHealthCheck(result) => {
                (format!("record {}", result.is_ok()), RefreshEvent::HealthRecorded(result))
            }
            RefreshStep::Fetch { api_url, model, prompt } => (
                format!("fetch {} {} {}", api_url, model, prompt),
                RefreshEvent::Fetched(fetch.clone()),
            ),
            RefreshStep::Store { completion } => {
                (format!("store {}", completion), RefreshEvent::Stored)
            }
            RefreshStep::SetStatus(OllamaConnectionStatus::Connected) => {
                ("connected".to_string(), RefreshEvent::StatusSet)
            }
            RefreshStep::SetStatus(OllamaConnectionStatus::Error(e)) => {
                (format!("error {}", e), RefreshEvent::StatusSet)
            }
            RefreshStep::SetStatus(OllamaConnectionStatus::Unknown) => {
                ("unknown".to_string(), RefreshEvent::StatusSet)
            }
            RefreshStep::Finish => return names,
        };
        names.push(name);
        event = next;
    }
}

#[test]
fn task_takes_its_steps_in_order() {
    let ok = || Ok("x".to_string());
    assert_eq!(
        steps(true, Ok(()), ok()),
        vec!["wait 75", "check u m", "record true", "fetch u m p", "store x", "connected"]
    );
    assert_eq!(
        steps(false, Err("never asked".to_string()), ok()),
        vec!["wait 75", "fetch u m p", "store x", "connected"]
    );
    assert_eq!(
        steps(true, Err("down".to_string()), ok()),
        vec!["wait 75", "check u m", "record false", "error down"]
    );
    assert_eq!(
        steps(false, Ok(()), Err("bad".to_string())),
        vec!["wait 75", "fetch u m p", "error bad"]
    );
}

#[test]
fn task_ends_where_the_provider_is_gone() {
    assert!(matches!(task(true).next_step(RefreshEvent::Released), RefreshStep::Finish));
}
