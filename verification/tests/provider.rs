use std::collections::hash_map::DefaultHasher;
use std::hash::Hash;
use std::hash::Hasher;

use ollama_completion::reset_completion_cache;
use ollama_completion::Anchor;
use ollama_completion::Bias;
use ollama_completion::BufferSnapshot;
use ollama_completion::CursorPosition;
use ollama_completion::Direction;
use ollama_completion::Edit;
use ollama_completion::EditPrediction;
use ollama_completion::EntityId;
use ollama_completion::HealthAction;
use ollama_completion::HealthEvent;
use ollama_completion::OllamaCompletionProvider;
use ollama_completion::RefreshAction;
use ollama_completion::RefreshEvent;
use ollama_completion::RefreshStep;
use ollama_completion::RefreshTask;
use ollama_completion::DEFAULT_MODEL;
use ollama_completion::DEFAULT_OLLAMA_URL;
use ollama_completion::MAX_CACHE_SIZE;

#[derive(Clone, Debug, PartialEq)]
struct FakeHttpClient {
    status: u16,
}

impl FakeHttpClient {
    fn with_404_response() -> Self {
        FakeHttpClient { status: 404 }
    }
}

type Provider = OllamaCompletionProvider<FakeHttpClient, u32>;

fn anchor(timestamp: u64) -> Anchor {
    Anchor { timestamp, offset: 0, bias: Bias::Left, buffer_id: Some(1) }
}

fn cursor(timestamp: u64, offset: usize) -> CursorPosition {
    CursorPosition { anchor: anchor(timestamp), offset }
}

fn buffer(id: u64, text: &str) -> BufferSnapshot {
    BufferSnapshot { entity_id: EntityId { id }, text: text.to_string() }
}

fn spawned(action: RefreshAction) -> RefreshTask {
    match action {
        RefreshAction::Spawn(task) => task,
        other => panic!("no task but {:?}", other),
    }
}

#[test]
fn test_provider_builder_methods() {
    let http_client = FakeHttpClient::with_404_response();
    let provider = Provider::new(http_client.clone());

    assert_eq!(provider.api_url, DEFAULT_OLLAMA_URL);
    assert_eq!(provider.model, DEFAULT_MODEL);
    assert_eq!(provider.http_client, http_client);

    let provider = provider
        .with_url("http://custom:8080".to_string())
        .with_model("custom-model".to_string());

    assert_eq!(provider.api_url, "http://custom:8080");
    assert_eq!(provider.model, "custom-model");
}

#[test]
fn test_prompt_hashing() {
    let hash1 = Provider::hash_prompt("hello world");
    let hash2 = Provider::hash_prompt("hello world");
    let hash3 = Provider::hash_prompt("different prompt");

    assert_eq!(hash1, hash2);
    assert_ne!(hash1, hash3);
}

#[test]
fn prompt_hash_is_the_default_hash() {
    for prompt in ["", "hello world", "é\n<|fim_prefix|>"] {
        let mut hasher = DefaultHasher::new();
        prompt.hash(&mut hasher);
        assert_eq!(Provider::hash_prompt(prompt), hasher.finish());
    }
}

#[test]
fn test_completion_cache() {
    let http_client = FakeHttpClient::with_404_response();
    let mut provider = Provider::new(http_client);

    // Cache should be empty initially
    assert!(provider.get_cached(12345).is_none());

    // Add a completion
    provider.cache_completion(12345, "completion1".to_string());
    assert_eq!(provider.get_cached(12345), Some(&"completion1".to_string()));

    // Add another
    provider.cache_completion(67890, "completion2".to_string());
    assert_eq!(provider.get_cached(67890), Some(&"completion2".to_string()));
    assert_eq!(provider.get_cached(12345), Some(&"completion1".to_string()));
}

#[test]
fn test_cache_lru_eviction() {
    let http_client = FakeHttpClient::with_404_response();
    let mut provider = Provider::new(http_client);

    // Fill cache beyond capacity
    for i in 0..(MAX_CACHE_SIZE + 10) {
        provider.cache_completion(i as u64, format!("completion{}", i));
    }

    // Cache should be at max size
    assert_eq!(provider.completion_cache.len(), MAX_CACHE_SIZE);

    // First entries should be evicted
    assert!(provider.get_cached(0).is_none());
    assert!(provider.get_cached(9).is_none());

    // Recent entries should still be present
    let last_hash = (MAX_CACHE_SIZE + 9) as u64;
    assert!(provider.get_cached(last_hash).is_some());
}

#[test]
fn test_provider_initial_state() {
    let http_client = FakeHttpClient::with_404_response();
    let provider = Provider::new(http_client);

    assert!(!provider.health_checked);
    assert!(provider.completion_cache.is_empty());
    assert!(provider.cache_order.is_empty());
    assert!(provider.completion_text.is_none());
    assert!(provider.buffer_id.is_none());
}

#[test]
fn distinct_completions_leave_in_the_order_they_came() {
    let mut provider = Provider::new(FakeHttpClient::with_404_response());
    for i in 0..(MAX_CACHE_SIZE as u64 + 10) {
        provider.cache_completion(i, format!("completion{}", i));
    }
    assert!(provider.get_cached(9).is_none());
    assert_eq!(provider.get_cached(10), Some(&"completion10".to_string()));
    let expected: Vec<u64> = (10..60).collect();
    assert_eq!(provider.cache_order, expected);
}

#[test]
fn storing_again_makes_a_completion_the_newest() {
    let mut provider = Provider::new(FakeHttpClient::with_404_response());
    provider.cache_completion(1, "a".to_string());
    provider.cache_completion(2, "b".to_string());
    provider.cache_completion(1, "c".to_string());
    assert_eq!(provider.cache_order, vec![2, 1]);
    assert_eq!(provider.get_cached(1), Some(&"c".to_string()));
    assert_eq!(provider.get_cached(2), Some(&"b".to_string()));
}

#[test]
fn storing_again_in_a_full_cache_evicts_nothing() {
    let mut provider = Provider::new(FakeHttpClient::with_404_response());
    for i in 0..(MAX_CACHE_SIZE as u64) {
        provider.cache_completion(i, format!("completion{}", i));
    }
    provider.cache_completion(0, "new".to_string());
    assert_eq!(provider.completion_cache.len(), MAX_CACHE_SIZE);
    assert_eq!(provider.get_cached(0), Some(&"new".to_string()));
    assert_eq!(provider.get_cached(1), Some(&"completion1".to_string()));
    let mut expected: Vec<u64> = (1..50).collect();
    expected.push(0);
    assert_eq!(provider.cache_order, expected);
}

#[test]
fn least_recently_stored_completion_leaves_first() {
    let mut provider = Provider::new(FakeHttpClient::with_404_response());
    for i in 0..(MAX_CACHE_SIZE as u64) {
        provider.cache_completion(i, format!("completion{}", i));
    }
    provider.cache_completion(0, "new".to_string());
    provider.cache_completion(100, "last".to_string());
    assert_eq!(provider.completion_cache.len(), MAX_CACHE_SIZE);
    assert!(provider.get_cached(1).is_none());
    assert_eq!(provider.get_cached(0), Some(&"new".to_string()));
    assert_eq!(provider.get_cached(2), Some(&"completion2".to_string()));
    assert_eq!(provider.get_cached(100), Some(&"last".to_string()));
}

#[test]
fn refresh_without_debounce_does_nothing() {
    let mut provider = Provider::new(FakeHttpClient::with_404_response());
    provider.set_pending_refresh(7);
    let action = provider.refresh(&buffer(1, "fn main"), cursor(1, 7), false);
    assert!(matches!(action, RefreshAction::Ignored));
    assert_eq!(provider.pending_refresh, Some(7));
    assert!(!provider.health_checked);
}

#[test]
fn refresh_starts_a_task_and_the_second_one_hits_the_cache() {
    let mut provider = Provider::new(FakeHttpClient::with_404_response())
        .with_url("http://custom:8080".to_string())
        .with_model("custom-model".to_string());
    let text = buffer(1, "let a = 1;\nlet b");
    let at = cursor(5, 16);

    let task = spawned(provider.refresh(&text, at, true));
    assert_eq!(
        task.prompt,
        "<|fim_prefix|>let a = 1;\nlet b<|fim_suffix|><|fim_middle|>"
    );
    assert_eq!(task.prompt_hash, Provider::hash_prompt(&task.prompt));
    assert_eq!(task.api_url, "http://custom:8080");
    assert_eq!(task.model, "custom-model");
    assert_eq!(task.buffer_id, EntityId { id: 1 });
    assert_eq!(task.cursor_position, at.anchor);
    assert!(task.should_health_check);
    assert!(!provider.is_refreshing());
    provider.set_pending_refresh(3);
    assert!(provider.is_refreshing());
    assert_eq!(provider.suggest(&text, at), None);

    provider.complete_refresh(&task, " = 2;".to_string());
    assert!(!provider.is_refreshing());
    assert_eq!(provider.pending_refresh, Some(3));
    assert_eq!(
        provider.suggest(&text, at),
        Some(EditPrediction::Local {
            id: None,
            edits: vec![Edit { offset: 16, text: " = 2;".to_string() }],
            edit_preview: None,
        })
    );

    provider.accept();
    assert_eq!(provider.suggest(&text, at), None);
    let again = provider.refresh(&text, cursor(9, 16), true);
    assert!(matches!(again, RefreshAction::Notify));
    assert_eq!(provider.completion_text, Some(" = 2;".to_string()));
    assert_eq!(provider.completion_position, Some(anchor(9)));
    assert_eq!(provider.buffer_id, Some(EntityId { id: 1 }));
    assert!(provider.pending_refresh.is_none());
}

#[test]
fn refresh_for_a_known_hash() {
    let mut provider = Provider::new(FakeHttpClient::with_404_response());
    provider.cache_completion(42, "cached".to_string());
    provider.set_pending_refresh(1);
    let hit = provider.refresh_for_prompt(EntityId { id: 4 }, anchor(2), "p".to_string(), 42);
    assert!(matches!(hit, RefreshAction::Notify));
    assert_eq!(provider.completion_text, Some("cached".to_string()));
    assert!(provider.pending_refresh.is_none());
    let miss = provider.refresh_for_prompt(EntityId { id: 4 }, anchor(2), "p".to_string(), 43);
    assert_eq!(spawned(miss).prompt, "p");
    assert!(!provider.health_checked);
    assert!(provider.completion_text.is_none());
}

#[test]
fn health_is_checked_until_a_check_has_ended() {
    let mut provider = Provider::new(FakeHttpClient::with_404_response());
    // The second refresh drops the first task within its wait.
    let first = spawned(provider.refresh(&buffer(1, "a"), cursor(1, 1), true));
    provider.set_pending_refresh(1);
    let second = spawned(provider.refresh(&buffer(1, "a"), cursor(1, 1), true));
    assert!(provider.pending_refresh.is_none());
    assert!(first.should_health_check);
    assert!(second.should_health_check);
    assert!(!provider.health_checked);
    assert!(matches!(
        second.next_step(RefreshEvent::TimerElapsed),
        RefreshStep::CheckHealth { .. }
    ));
    match Provider::check_health(&second.api_url, &second.model, HealthEvent::Start) {
        HealthAction::Get { uri } => assert_eq!(uri, "http://localhost:11434/api/tags"),
        other => panic!("{:?}", other),
    }

    // Once a check has ended, even with an error, no task checks again.
    let failed = RefreshEvent::HealthChecked(Err("down".to_string()));
    assert!(matches!(second.next_step(failed), RefreshStep::RecordHealthCheck(Err(_))));
    provider.health_check_performed();
    assert!(provider.health_checked);
    let third = spawned(provider.refresh(&buffer(1, "b"), cursor(1, 1), true));
    assert!(!third.should_health_check);
    assert!(matches!(
        third.next_step(RefreshEvent::TimerElapsed),
        RefreshStep::Fetch { .. }
    ));
    provider.discard();
    assert!(provider.health_checked);
}

#[test]
fn reset_keeps_the_cache() {
    let mut provider = Provider::new(FakeHttpClient::with_404_response());
    let task = spawned(provider.refresh(&buffer(1, "a"), cursor(1, 1), true));
    provider.set_pending_refresh(1);
    provider.health_check_performed();
    provider.complete_refresh(&task, "bc".to_string());
    reset_completion_cache(&mut provider);
    assert!(provider.completion_text.is_none());
    assert!(provider.completion_position.is_none());
    assert!(provider.buffer_id.is_none());
    assert!(provider.pending_refresh.is_none());
    assert!(provider.health_checked);
    assert_eq!(provider.get_cached(task.prompt_hash), Some(&"bc".to_string()));
    provider.discard();
    assert_eq!(provider.get_cached(task.prompt_hash), Some(&"bc".to_string()));
}

#[test]
fn suggestion_is_bound_to_its_buffer_and_position() {
    let mut provider = Provider::new(FakeHttpClient::with_404_response());
    let text = buffer(1, "ab");
    let task = spawned(provider.refresh(&text, cursor(1, 2), true));
    provider.complete_refresh(&task, "cd".to_string());
    assert!(provider.suggest(&text, cursor(1, 2)).is_some());
    assert!(provider.suggest(&text, cursor(2, 2)).is_none());
    assert!(provider.suggest(&buffer(2, "ab"), cursor(1, 2)).is_none());
    let right = CursorPosition {
        anchor: Anchor { bias: Bias::Right, ..anchor(1) },
        offset: 2,
    };
    assert!(provider.suggest(&text, right).is_none());
    provider.cycle(&text, cursor(1, 2), Direction::Next);
    provider.cycle(&text, cursor(1, 2), Direction::Prev);
    assert!(provider.suggest(&text, cursor(1, 2)).is_some());
}

#[test]
fn blank_completion_is_not_suggested() {
    for completion in ["", "   ", "\n \t\n", "  \n"] {
        let mut provider = Provider::new(FakeHttpClient::with_404_response());
        let task = spawned(provider.refresh(&buffer(1, "ab"), cursor(1, 2), true));
        provider.complete_refresh(&task, completion.to_string());
        assert_eq!(provider.suggest(&buffer(1, "ab"), cursor(1, 2)), None);
    }
}

#[test]
fn only_the_first_line_is_suggested() {
    let mut provider = Provider::new(FakeHttpClient::with_404_response());
    let task = spawned(provider.refresh(&buffer(1, "ab"), cursor(1, 2), true));
    provider.complete_refresh(&task, "cd  \nef".to_string());
    assert_eq!(
        provider.suggest(&buffer(1, "ab"), cursor(1, 2)),
        Some(EditPrediction::Local {
            id: None,
            edits: vec![Edit { offset: 2, text: "cd".to_string() }],
            edit_preview: None,
        })
    );
}

#[test]
fn fixed_answers() {
    let provider = Provider::new(FakeHttpClient::with_404_response());
    assert_eq!(Provider::name(), "ollama");
    assert_eq!(Provider::display_name(), "Ollama");
    assert!(Provider::show_completions_in_menu());
    assert!(Provider::show_tab_accept_marker());
    assert!(!Provider::supports_jump_to_edit());
    assert!(provider.is_enabled(&buffer(1, ""), cursor(1, 0)));
    assert!(!provider.is_refreshing());
}
