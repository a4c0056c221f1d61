use ollama_completion::ollama_connection_status;
use ollama_completion::set_ollama_connection_status;
use ollama_completion::App;
use ollama_completion::GlobalOllamaStatus;
use ollama_completion::OllamaConnectionStatus;

#[test]
fn test_ollama_connection_status_default() {
    let status = OllamaConnectionStatus::default();
    assert_eq!(status, OllamaConnectionStatus::Unknown);
}

#[test]
fn test_ollama_connection_status_equality() {
    assert_eq!(
        OllamaConnectionStatus::Connected,
        OllamaConnectionStatus::Connected
    );
    assert_eq!(
        OllamaConnectionStatus::Error("test".to_string()),
        OllamaConnectionStatus::Error("test".to_string())
    );
    assert_ne!(
        OllamaConnectionStatus::Connected,
        OllamaConnectionStatus::Unknown
    );
    assert_ne!(
        OllamaConnectionStatus::Error("a".to_string()),
        OllamaConnectionStatus::Error("b".to_string())
    );
}

#[test]
fn status_is_the_one_that_was_set_last() {
    let mut app = App { ollama_status: None };
    assert_eq!(ollama_connection_status(&app), OllamaConnectionStatus::Unknown);
    set_ollama_connection_status(OllamaConnectionStatus::Error("down".to_string()), &mut app);
    assert_eq!(
        ollama_connection_status(&app),
        OllamaConnectionStatus::Error("down".to_string())
    );
    set_ollama_connection_status(OllamaConnectionStatus::Connected, &mut app);
    assert_eq!(ollama_connection_status(&app), OllamaConnectionStatus::Connected);
}

#[test]
fn copies_of_a_status_are_equal() {
    let status = OllamaConnectionStatus::Error("é".to_string());
    assert_eq!(status.clone(), status);
    assert_eq!(GlobalOllamaStatus::default().0, OllamaConnectionStatus::Unknown);
}
