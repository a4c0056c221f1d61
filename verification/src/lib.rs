//! Inline completions from a local Ollama server.
//!
//! The provider keeps the completion that it shows, a bounded cache of earlier
//! ones, and the handle of the task that fetches the next one. Every step of it
//! that needs no network, timer or editor stands here: the prompt, the cache,
//! the decisions of the background task, and the edits that a completion turns
//! into. The network and the editor are reached by the crate under `app/`.

pub mod buffer;
pub mod cache;
pub mod edits;
pub mod generate;
pub mod health;
pub mod laws;
pub mod prompt;
pub mod provider;
pub mod refresh;
pub mod status;
pub mod text;

pub use crate::buffer::Anchor;
pub use crate::buffer::Bias;
pub use crate::buffer::BufferSnapshot;
pub use crate::buffer::CursorPosition;
pub use crate::buffer::EntityId;
pub use crate::cache::MAX_CACHE_SIZE;
pub use crate::edits::completion_from_text;
pub use crate::edits::Edit;
pub use crate::edits::EditPrediction;
pub use crate::edits::EditPreview;
pub use crate::generate::FetchAction;
pub use crate::generate::FetchEvent;
pub use crate::generate::GenerateOptions;
pub use crate::generate::GenerateRequest;
pub use crate::generate::GenerateResponse;
pub use crate::health::HealthAction;
pub use crate::health::HealthEvent;
pub use crate::health::ModelInfo;
pub use crate::health::TagsResponse;
pub use crate::prompt::MAX_PREFIX_BYTES;
pub use crate::prompt::MAX_SUFFIX_BYTES;
pub use crate::provider::reset_completion_cache;
pub use crate::provider::Direction;
pub use crate::provider::OllamaCompletionProvider;
pub use crate::provider::RefreshAction;
pub use crate::provider::DEFAULT_MODEL;
pub use crate::provider::DEFAULT_OLLAMA_URL;
pub use crate::refresh::RefreshEvent;
pub use crate::refresh::RefreshStep;
pub use crate::refresh::RefreshTask;
pub use crate::refresh::DEBOUNCE_TIMEOUT_MILLIS;
pub use crate::status::ollama_connection_status;
pub use crate::status::set_ollama_connection_status;
pub use crate::status::App;
pub use crate::status::GlobalOllamaStatus;
pub use crate::status::OllamaConnectionStatus;
pub use crate::text::has_leading_newline;
pub use crate::text::trim_to_end_of_line_unless_leading_newline;
