//! The provider of completions: its state, and what it does for the editor.

use std::collections::hash_map::DefaultHasher;
use std::collections::HashMap;

use vstd::prelude::*;
use vstd::std_specs::hash::*;
use vstd::utf8::*;

use crate::buffer::Anchor;
use crate::buffer::BufferSnapshot;
use crate::buffer::CursorPosition;
use crate::buffer::EntityId;
use crate::cache;
use crate::cache::CacheView;
use crate::cache::MAX_CACHE_SIZE;
use crate::edits;
use crate::edits::EditPrediction;
use crate::edits::EditView;
use crate::generate;
use crate::generate::FetchAction;
use crate::generate::FetchEvent;
use crate::health;
use crate::health::HealthAction;
use crate::health::HealthEvent;
use crate::health::ModelInfo;
use crate::prompt;
use crate::refresh::RefreshTask;
use crate::refresh::TaskView;
use crate::text;

verus! {

broadcast use vstd::std_specs::hash::group_hash_axioms;

/// The server that is asked unless another one is configured.
pub const DEFAULT_OLLAMA_URL: &'static str = "http://localhost:11434";

/// The model that is asked unless another one is configured.
pub const DEFAULT_MODEL: &'static str = "qwen2.5-coder:7b";

/// A provider of completions. `C` is the client through which the server is
/// reached, `T` the handle of a background task; a task is cancelled where its
/// handle is dropped.
pub struct OllamaCompletionProvider<C, T> {
    pub http_client: C,
    pub api_url: String,
    pub model: String,
    pub buffer_id: Option<EntityId>,
    pub completion_text: Option<String>,
    pub pending_refresh: Option<T>,
    pub completion_position: Option<Anchor>,
    /// The completions by the hash of their prompt.
    pub completion_cache: HashMap<u64, String>,
    /// The hashes of the cached completions, oldest first.
    pub cache_order: Vec<u64>,
    /// Whether the initial health check has been performed.
    pub health_checked: bool,
}

/// The model of an `OllamaCompletionProvider`.
#[verifier::ext_equal]
pub struct ProviderView<C, T> {
    pub http_client: C,
    pub api_url: Seq<char>,
    pub model: Seq<char>,
    pub buffer_id: Option<EntityId>,
    pub completion_text: Option<Seq<char>>,
    pub pending_refresh: Option<T>,
    pub completion_position: Option<Anchor>,
    pub cache: CacheView,
    pub health_checked: bool,
}

/// The model of a text that may be missing.
pub open spec fn optional_text(text: Option<String>) -> Option<Seq<char>> {
    match text {
        Some(text) => Some(text@),
        None => None,
    }
}

impl<C, T> View for OllamaCompletionProvider<C, T> {
    type V = ProviderView<C, T>;

    open spec fn view(&self) -> ProviderView<C, T> {
        ProviderView {
            http_client: self.http_client,
            api_url: self.api_url@,
            model: self.model@,
            buffer_id: self.buffer_id,
            completion_text: optional_text(self.completion_text),
            pending_refresh: self.pending_refresh,
            completion_position: self.completion_position,
            cache: CacheView {
                entries: self.completion_cache@.map_values(|s: String| s@),
                order: self.cache_order@,
            },
            health_checked: self.health_checked,
        }
    }
}

/// The hashes of a list without one of them.
fn remove_hash(order: &Vec<u64>, hash: u64) -> (kept: Vec<u64>)
    ensures
        kept@ == cache::without(order@, hash),
{
    let mut kept: Vec<u64> = Vec::new();
    let mut i: usize = 0;
    assert(order@.take(0) =~= Seq::empty());
    assert(cache::without(order@.take(0), hash) =~= kept@) by {
        reveal(Seq::filter);
    }
    while i < order.len()
        invariant
            i <= order@.len(),
            kept@ == cache::without(order@.take(i as int), hash),
        decreases order@.len() - i,
    {
        reveal(Seq::filter);
        assert(order@.take(i + 1).drop_last() =~= order@.take(i as int));
        if order[i] != hash {
            kept.push(order[i]);
        }
        i += 1;
    }
    assert(order@.take(i as int) =~= order@);
    kept
}

impl<C, T> OllamaCompletionProvider<C, T> {
    /// The invariant of a provider: its cache lists every completion once, and
    /// is not over its size.
    pub open spec fn well_formed(&self) -> bool {
        self@.cache.well_formed()
    }

    /// A provider that asks the default server for the default model, and knows
    /// of no completion.
    pub fn new(http_client: C) -> (provider: Self)
        ensures
            provider.well_formed(),
            provider@ == (ProviderView::<C, T> {
                http_client,
                api_url: DEFAULT_OLLAMA_URL@,
                model: DEFAULT_MODEL@,
                buffer_id: None,
                completion_text: None,
                pending_refresh: None,
                completion_position: None,
                cache: CacheView::empty(),
                health_checked: false,
            }),
            provider.http_client == http_client,
            provider.api_url@ == "http://localhost:11434"@,
            provider.model@ == "qwen2.5-coder:7b"@,
            provider.buffer_id is None,
            provider.completion_text is None,
            provider.pending_refresh is None,
            provider.completion_position is None,
            provider.completion_cache@ == Map::<u64, String>::empty(),
            provider.cache_order@.len() == 0,
            !provider.health_checked,
    {
        let provider = OllamaCompletionProvider {
            http_client,
            api_url: DEFAULT_OLLAMA_URL.to_owned(),
            model: DEFAULT_MODEL.to_owned(),
            buffer_id: None,
            completion_text: None,
            pending_refresh: None,
            completion_position: None,
            completion_cache: HashMap::new(),
            cache_order: Vec::new(),
            health_checked: false,
        };
        assert(provider@.cache =~= CacheView::empty());
        assert(provider@.cache.order.to_set() =~= provider@.cache.entries.dom());
        provider
    }

    /// The provider with another server.
    pub fn with_url(self, url: String) -> (provider: Self)
        ensures
            provider@ == (ProviderView { api_url: url@, ..self@ }),
            provider == (OllamaCompletionProvider { api_url: url, ..self }),
            provider.well_formed() == self.well_formed(),
    {
        let mut provider = self;
        provider.api_url = url;
        provider
    }

    /// The provider with another model.
    pub fn with_model(self, model: String) -> (provider: Self)
        ensures
            provider@ == (ProviderView { model: model@, ..self@ }),
            provider == (OllamaCompletionProvider { model, ..self }),
            provider.well_formed() == self.well_formed(),
    {
        let mut provider = self;
        provider.model = model;
        provider
    }

    /// Build FIM prompt with optimized context window.
    pub fn build_fim_prompt(
        &self,
        snapshot: &BufferSnapshot,
        cursor_position: CursorPosition,
    ) -> (built: String)
        requires
            snapshot.holds(cursor_position),
        ensures
            built@ == prompt::fim_prompt(snapshot.text@, cursor_position.offset as int),
    {
        let (full_prefix, full_suffix) = snapshot.text.as_str().split_at(cursor_position.offset);
        prompt::frame_fim_prompt(full_prefix, full_suffix)
    }

    /// Compute hash of a prompt for caching.
    pub fn hash_prompt(prompt: &str) -> (hash: u64)
        ensures
            hash == prompt::prompt_hash(prompt@),
            hash == DefaultHasher::spec_finish(prompt::str_hash_writes(prompt@)),
    {
        prompt::hash_of_prompt(prompt)
    }

    /// Get cached completion if available.
    pub fn get_cached(&self, prompt_hash: u64) -> (found: Option<&String>)
        ensures
            match found {
                Some(completion) => self@.cache.get(prompt_hash) == Some(completion@),
                None => self@.cache.get(prompt_hash) is None,
            },
            found is Some <==> self.completion_cache@.contains_key(prompt_hash),
            found matches Some(completion) ==> *completion == self.completion_cache@[prompt_hash],
    {
        self.completion_cache.get(&prompt_hash)
    }

    /// Store completion in cache, as the newest one. A completion that was cached
    /// under the same hash is replaced; else a full cache gives up its oldest one.
    pub fn cache_completion(&mut self, prompt_hash: u64, completion: String)
        requires
            old(self).well_formed(),
        ensures
            final(self).well_formed(),
            final(self)@ == (ProviderView {
                cache: old(self)@.cache.store(prompt_hash, completion@),
                ..old(self)@
            }),
            *final(self) == (OllamaCompletionProvider {
                completion_cache: final(self).completion_cache,
                cache_order: final(self).cache_order,
                ..*old(self)
            }),
            ({
                let held = old(self).completion_cache@;
                let order = old(self).cache_order@;
                let full = !held.contains_key(prompt_hash) && held.len() >= 50;
                &&& final(self).completion_cache@ == if full {
                    held.remove(order[0]).insert(prompt_hash, completion)
                } else {
                    held.insert(prompt_hash, completion)
                }
                &&& full ==> final(self).cache_order@ == order.skip(1) + seq![prompt_hash]
                &&& !held.contains_key(prompt_hash) && !full ==> final(self).cache_order@ == order
                    + seq![prompt_hash]
                &&& forall|at: int|
                    0 <= at < order.len() && #[trigger] order[at] == prompt_hash
                        ==> final(self).cache_order@ == order.take(at) + order.skip(at + 1)
                        + seq![prompt_hash]
            }),
    {
        let ghost before = self@.cache;
        let ghost held = self.completion_cache@;
        let ghost kept = before.order_without(prompt_hash);
        proof {
            assert(self.completion_cache@.dom() =~= before.entries.dom());
            cache::lemma_order(before, prompt_hash);
            cache::lemma_order_without(before.order, prompt_hash);
            cache::store_keeps_well_formed(before, prompt_hash, completion@);
        }
        if self.completion_cache.contains_key(&prompt_hash) {
            self.cache_order = remove_hash(&self.cache_order, prompt_hash);
            self.completion_cache.remove(&prompt_hash);
        }
        let ghost others = self.completion_cache@;
        while self.completion_cache.len() >= MAX_CACHE_SIZE && self.cache_order.len() > 0
            invariant
                others.dom().finite(),
                others.len() <= MAX_CACHE_SIZE,
                ({
                    ||| self.completion_cache@ == others && self.cache_order@ == kept
                    ||| {
                        &&& others.len() == MAX_CACHE_SIZE
                        &&& self.completion_cache@ == others.remove(kept[0])
                        &&& self.cache_order@ == kept.skip(1)
                        &&& self.completion_cache@.len() < MAX_CACHE_SIZE
                    }
                }),
                forall|h: u64| kept.contains(h) ==> others.contains_key(h),
                *self == (OllamaCompletionProvider {
                    completion_cache: self.completion_cache,
                    cache_order: self.cache_order,
                    ..*old(self)
                }),
            decreases self.cache_order@.len(),
        {
            let oldest = self.cache_order[0];
            assert(kept.contains(oldest));
            self.completion_cache.remove(&oldest);
            self.cache_order.remove(0);
            assert(self.cache_order@ =~= kept.skip(1));
        }
        self.completion_cache.insert(prompt_hash, completion);
        self.cache_order.push(prompt_hash);
        proof {
            let after = before.store(prompt_hash, completion@);
            assert(self.cache_order@ =~= after.order);
            assert(self@.cache.entries =~= after.entries);
            cache::store_replaces_or_adds(before, prompt_hash, completion@, 0);
            let full = !held.contains_key(prompt_hash) && held.len() >= MAX_CACHE_SIZE;
            assert(self.completion_cache@ =~= if full {
                held.remove(before.order[0]).insert(prompt_hash, completion)
            } else {
                held.insert(prompt_hash, completion)
            });
            assert forall|at: int|
                0 <= at < before.order.len() && #[trigger] before.order[at]
                    == prompt_hash implies self.cache_order@ == before.order.take(at)
                + before.order.skip(at + 1) + seq![prompt_hash] by {
                assert(before.order.to_set().contains(prompt_hash));
                cache::store_replaces_or_adds(before, prompt_hash, completion@, at);
            }
        }
    }

    /// What a health check of the server at `api_url` does after an event:
    /// whether the server runs and the model is available.
    pub fn check_health(api_url: &str, model: &str, event: HealthEvent) -> (action: HealthAction)
        ensures
            action@ == health::health_action(api_url@, model@, event@),
            match event {
                HealthEvent::Start => action matches HealthAction::Get { uri } && uri@ == api_url@
                    + "/api/tags"@,
                HealthEvent::RequestInvalid(e) => action matches HealthAction::Finish(Err(message))
                    && message@ == "Failed to build request: "@ + e@,
                HealthEvent::SendFailed(e) => action matches HealthAction::Finish(Err(message)) && message@
                    == if exists|before: Seq<char>, after: Seq<char>|
                    e@ == #[trigger] (before + "Connection refused"@ + after) {
                    "Ollama server is not running. Start with 'ollama serve'."@
                } else {
                    "Cannot connect to Ollama: "@ + e@
                },
                HealthEvent::Responded { success, status } => if success {
                    action is ReadBody
                } else {
                    action matches HealthAction::Finish(Err(message)) && message@ == "Ollama API error: "@
                        + status@
                },
                HealthEvent::BodyUnreadable(e) => action matches HealthAction::Finish(Err(message))
                    && message@ == "Failed to read response: "@ + e@,
                HealthEvent::BodyRead(body) => action matches HealthAction::ParseTags { body: parsed }
                    && parsed@ == body@,
                HealthEvent::TagsInvalid(e) => action matches HealthAction::Finish(Err(message))
                    && message@ == "Invalid response from Ollama: "@ + e@,
                HealthEvent::TagsParsed(tags) => action matches HealthAction::Finish(result) && {
                    &&& result is Ok <==> exists|i: int, k: int|
                        {
                            &&& 0 <= i < tags.models@.len()
                            &&& 0 <= k <= tags.models@[i].name@.len()
                            &&& k <= model@.len()
                            &&& #[trigger] tags.models@[i].name@.take(k) == model@.take(k)
                            &&& !model@.take(k).contains(':')
                            &&& k < tags.models@[i].name@.len() ==> tags.models@[i].name@[k] == ':'
                            &&& k < model@.len() ==> model@[k] == ':'
                        }
                    &&& result matches Err(message) ==> message@ == if tags.models@.len() == 0 {
                        "No models installed. Run 'ollama pull "@ + model@ + "'"@
                    } else {
                        "Model '"@ + model@ + "' not found. Available: "@ + health::joined(
                            tags.models@.map_values(|m: ModelInfo| m.name@),
                            ", "@,
                        ) + ". Run 'ollama pull "@ + model@ + "'"@
                    }
                },
            },
    {
        health::next_health_action(api_url, model, event)
    }

    /// What fetching the completion of a prompt does after an event.
    pub fn fetch_completion(
        api_url: &str,
        model: &str,
        prompt: &str,
        event: FetchEvent,
    ) -> (action: FetchAction)
        ensures
            action@ == generate::fetch_action(api_url@, model@, prompt@, event@),
            match event {
                FetchEvent::Start => action matches FetchAction::Post { uri, content_type, request } && {
                    &&& uri@ == api_url@ + "/api/generate"@
                    &&& content_type@ == "application/json"@
                    &&& request.model@ == model@
                    &&& request.prompt@ == prompt@
                    &&& !request.stream
                    &&& request.options matches Some(options) && {
                        &&& options.num_predict == Some(256i32)
                        &&& options.temperature_millis == Some(200u32)
                        &&& options.stop matches Some(stop) && {
                            &&& stop@.len() == 4
                            &&& stop@[0]@ == "\n\n"@
                            &&& stop@[1]@ == "<|fim_prefix|>"@
                            &&& stop@[2]@ == "<|fim_suffix|>"@
                            &&& stop@[3]@ == "<|fim_middle|>"@
                        }
                    }
                },
                FetchEvent::Failed(e) => action matches FetchAction::Finish(Err(message)) && message@ == e@,
                FetchEvent::Replied { success, status, body } => if success {
                    action matches FetchAction::ParseResponse { body: parsed } && parsed@ == body@
                } else {
                    action matches FetchAction::Finish(Err(message)) && message@ == "Ollama API error: "@
                        + status@ + " "@ + body@
                },
                FetchEvent::Parsed(response) => action matches FetchAction::Finish(Ok(completion))
                    && completion@ == response.response@,
            },
    {
        generate::next_fetch_action(api_url, model, prompt, event)
    }

    /// The name under which the provider is configured.
    pub fn name() -> (name: &'static str)
        ensures
            name@ == "ollama"@,
    {
        "ollama"
    }

    /// The name that is shown.
    pub fn display_name() -> (name: &'static str)
        ensures
            name@ == "Ollama"@,
    {
        "Ollama"
    }

    pub fn show_completions_in_menu() -> (shown: bool)
        ensures
            shown,
    {
        true
    }

    pub fn show_tab_accept_marker() -> (shown: bool)
        ensures
            shown,
    {
        true
    }

    pub fn supports_jump_to_edit() -> (supported: bool)
        ensures
            !supported,
    {
        false
    }

    /// The provider works in every buffer, at every position.
    pub fn is_enabled(
        &self,
        _buffer: &BufferSnapshot,
        _cursor_position: CursorPosition,
    ) -> (enabled: bool)
        ensures
            enabled,
    {
        true
    }

    /// Whether a completion is on its way.
    pub fn is_refreshing(&self) -> (refreshing: bool)
        ensures
            refreshing == self@.is_refreshing(),
            refreshing == (self.pending_refresh is Some && self.completion_text is None),
    {
        self.pending_refresh.is_some() && self.completion_text.is_none()
    }

    /// Looks for a completion at the cursor: in the cache, else by a task in the
    /// background. Nothing happens unless `debounce` is set.
    pub fn refresh(
        &mut self,
        buffer: &BufferSnapshot,
        cursor_position: CursorPosition,
        debounce: bool,
    ) -> (action: RefreshAction)
        requires
            old(self).well_formed(),
            debounce ==> buffer.holds(cursor_position),
        ensures
            final(self).well_formed(),
            (final(self)@, action@) == old(self)@.refresh(
                buffer.entity_id,
                buffer.text@,
                cursor_position,
                debounce,
            ),
            !debounce ==> action is Ignored && *final(self) == *old(self),
            debounce ==> ({
                let prompt = prompt::fim_prompt(buffer.text@, cursor_position.offset as int);
                let hash = DefaultHasher::spec_finish(prompt::str_hash_writes(prompt));
                let held = old(self).completion_cache@;
                &&& *final(self) == (OllamaCompletionProvider {
                    pending_refresh: None,
                    completion_text: final(self).completion_text,
                    completion_position: final(self).completion_position,
                    buffer_id: final(self).buffer_id,
                    ..*old(self)
                })
                &&& if held.contains_key(hash) {
                    &&& action is Notify
                    &&& final(self).completion_text matches Some(text) && text@ == held[hash]@
                    &&& final(self).completion_position == Some(cursor_position.anchor)
                    &&& final(self).buffer_id == Some(buffer.entity_id)
                } else {
                    &&& action matches RefreshAction::Spawn(task) && {
                        &&& task.buffer_id == buffer.entity_id
                        &&& task.cursor_position == cursor_position.anchor
                        &&& task.prompt@ == prompt
                        &&& task.prompt_hash == hash
                        &&& task.api_url@ == old(self).api_url@
                        &&& task.model@ == old(self).model@
                        &&& task.should_health_check == !old(self).health_checked
                    }
                    &&& final(self).completion_text is None
                    &&& final(self).completion_position is None
                    &&& final(self).buffer_id is None
                }
            }),
    {
        if !debounce {
            return RefreshAction::Ignored;
        }
        let prompt = self.build_fim_prompt(buffer, cursor_position);
        let prompt_hash = Self::hash_prompt(prompt.as_str());
        self.refresh_for_prompt(buffer.entity_id, cursor_position.anchor, prompt, prompt_hash)
    }

    /// Looks for the completion of a prompt whose hash is known: in the cache,
    /// else by a task in the background.
    pub fn refresh_for_prompt(
        &mut self,
        buffer_id: EntityId,
        cursor_position: Anchor,
        prompt: String,
        prompt_hash: u64,
    ) -> (action: RefreshAction)
        requires
            old(self).well_formed(),
        ensures
            final(self).well_formed(),
            (final(self)@, action@) == old(self)@.refresh_for_prompt(
                buffer_id,
                cursor_position,
                prompt@,
                prompt_hash,
            ),
            ({
                let held = old(self).completion_cache@;
                &&& *final(self) == (OllamaCompletionProvider {
                    pending_refresh: None,
                    completion_text: final(self).completion_text,
                    completion_position: final(self).completion_position,
                    buffer_id: final(self).buffer_id,
                    ..*old(self)
                })
                &&& if held.contains_key(prompt_hash) {
                    &&& action is Notify
                    &&& final(self).completion_text matches Some(text) && text@
                        == held[prompt_hash]@
                    &&& final(self).completion_position == Some(cursor_position)
                    &&& final(self).buffer_id == Some(buffer_id)
                } else {
                    &&& action matches RefreshAction::Spawn(task) && {
                        &&& task.buffer_id == buffer_id
                        &&& task.cursor_position == cursor_position
                        &&& task.prompt@ == prompt@
                        &&& task.prompt_hash == prompt_hash
                        &&& task.api_url@ == old(self).api_url@
                        &&& task.model@ == old(self).model@
                        &&& task.should_health_check == !old(self).health_checked
                    }
                    &&& final(self).completion_text is None
                    &&& final(self).completion_position is None
                    &&& final(self).buffer_id is None
                }
            }),
    {
        reset_completion_cache(self);
        let cached = match self.get_cached(prompt_hash) {
            Some(completion) => Some(completion.clone()),
            None => None,
        };
        if let Some(completion) = cached {
            self.completion_text = Some(completion);
            self.completion_position = Some(cursor_position);
            self.buffer_id = Some(buffer_id);
            return RefreshAction::Notify;
        }
        let should_health_check = !self.health_checked;
        RefreshAction::Spawn(
            RefreshTask {
                buffer_id,
                cursor_position,
                prompt,
                prompt_hash,
                api_url: self.api_url.clone(),
                model: self.model.clone(),
                should_health_check,
            },
        )
    }

    /// Keeps the handle of the task that a refresh has started.
    pub fn set_pending_refresh(&mut self, task: T)
        ensures
            final(self)@ == (ProviderView { pending_refresh: Some(task), ..old(self)@ }),
            *final(self) == (OllamaCompletionProvider {
                pending_refresh: Some(task),
                ..*old(self)
            }),
            final(self).well_formed() == old(self).well_formed(),
    {
        self.pending_refresh = Some(task);
    }

    /// A health check has ended, whether the server passed it or not.
    pub fn health_check_performed(&mut self)
        ensures
            final(self)@ == (ProviderView { health_checked: true, ..old(self)@ }),
            *final(self) == (OllamaCompletionProvider { health_checked: true, ..*old(self) }),
            final(self).well_formed() == old(self).well_formed(),
    {
        self.health_checked = true;
    }

    /// Takes the completion that a task has fetched: it is cached, and shown at
    /// the position that it was fetched for.
    pub fn complete_refresh(&mut self, task: &RefreshTask, completion: String)
        requires
            old(self).well_formed(),
        ensures
            final(self).well_formed(),
            final(self)@ == old(self)@.complete(task@, completion@),
            *final(self) == (OllamaCompletionProvider {
                completion_cache: final(self).completion_cache,
                cache_order: final(self).cache_order,
                completion_text: Some(completion),
                completion_position: Some(task.cursor_position),
                buffer_id: Some(task.buffer_id),
                ..*old(self)
            }),
            ({
                let held = old(self).completion_cache@;
                let order = old(self).cache_order@;
                let full = !held.contains_key(task.prompt_hash) && held.len() >= 50;
                &&& final(self).completion_cache@ == if full {
                    held.remove(order[0]).insert(task.prompt_hash, completion)
                } else {
                    held.insert(task.prompt_hash, completion)
                }
                &&& full ==> final(self).cache_order@ == order.skip(1) + seq![task.prompt_hash]
                &&& !held.contains_key(task.prompt_hash) && !full ==> final(self).cache_order@
                    == order + seq![task.prompt_hash]
                &&& forall|at: int|
                    0 <= at < order.len() && #[trigger] order[at] == task.prompt_hash
                        ==> final(self).cache_order@ == order.take(at) + order.skip(at + 1)
                        + seq![task.prompt_hash]
            }),
    {
        self.cache_completion(task.prompt_hash, completion.clone());
        self.completion_text = Some(completion);
        self.completion_position = Some(task.cursor_position);
        self.buffer_id = Some(task.buffer_id);
    }

    /// There is never more than one completion to choose from.
    pub fn cycle(
        &mut self,
        _buffer: &BufferSnapshot,
        _cursor_position: CursorPosition,
        _direction: Direction,
    )
        ensures
            *final(self) == *old(self),
    {
    }

    /// The completion was accepted.
    pub fn accept(&mut self)
        ensures
            final(self)@ == old(self)@.reset(),
            *final(self) == (OllamaCompletionProvider {
                pending_refresh: None,
                completion_text: None,
                completion_position: None,
                buffer_id: None,
                ..*old(self)
            }),
            final(self).well_formed() == old(self).well_formed(),
    {
        reset_completion_cache(self);
    }

    /// The completion was discarded.
    pub fn discard(&mut self)
        ensures
            final(self)@ == old(self)@.reset(),
            *final(self) == (OllamaCompletionProvider {
                pending_refresh: None,
                completion_text: None,
                completion_position: None,
                buffer_id: None,
                ..*old(self)
            }),
            final(self).well_formed() == old(self).well_formed(),
    {
        reset_completion_cache(self);
    }

    /// The prediction to show at the cursor: the completion that was fetched for
    /// exactly this buffer and position, if there is anything in it to show.
    ///
    /// Where the rest of the cursor's line occurs in the completion in order,
    /// making the edits replaces it by what is offered of the completion.
    pub fn suggest(
        &mut self,
        buffer: &BufferSnapshot,
        cursor_position: CursorPosition,
    ) -> (suggestion: Option<EditPrediction>)
        requires
            buffer.holds(cursor_position),
        ensures
            *final(self) == *old(self),
            match suggestion {
                Some(prediction) => old(self)@.suggestion(
                    buffer.entity_id,
                    buffer.text@,
                    cursor_position,
                ) == Some(prediction@),
                None => old(self)@.suggestion(
                    buffer.entity_id,
                    buffer.text@,
                    cursor_position,
                ) is None,
            },
            suggestion matches Some(prediction) ==> ({
                let shown = text::offered(old(self)@.completion_text->Some_0);
                let offset = cursor_position.offset as int;
                let line = edits::predicted_line(buffer.text@, offset, shown);
                &&& prediction->id is None
                &&& prediction->edit_preview is None
                &&& edits::apply_edits(encode_utf8(buffer.text@), prediction@)
                    == edits::with_rest_of_line(buffer.text@, offset, line)
                &&& edits::line_occurs_in(buffer.text@, offset, shown) ==> line == shown
                &&& edits::well_placed(prediction@, buffer.text@, offset, shown)
                &&& edits::splits_into_clusters(shown)
                &&& edits::splits_into_clusters(edits::rest_of_line(buffer.text@, offset))
            }),
            suggestion is Some <==> {
                &&& old(self).buffer_id == Some(buffer.entity_id)
                &&& old(self).completion_position == Some(cursor_position.anchor)
                &&& old(self).completion_text matches Some(completion) && text::offered(
                    completion@,
                ).len() > 0
            },
            suggestion matches Some(prediction) ==> ({
                let expected = edits::completion_edits(
                    buffer.text@,
                    cursor_position.offset as int,
                    text::offered(old(self).completion_text->Some_0@),
                );
                &&& prediction->edits@.len() == expected.len()
                &&& forall|i: int|
                    0 <= i < expected.len() ==> (#[trigger] prediction->edits@[i]).offset
                        == expected[i].offset && prediction->edits@[i].text@ == expected[i].text
            }),
    {
        match self.buffer_id {
            Some(id) => {
                if id != buffer.entity_id {
                    return None;
                }
            },
            None => {
                return None;
            },
        }
        match &self.completion_text {
            Some(completion) => {
                match self.completion_position {
                    Some(position) => {
                        if cursor_position.anchor != position {
                            return None;
                        }
                    },
                    None => {
                        return None;
                    },
                }
                let shown = text::offered_text(completion.as_str());
                proof {
                    if shown@.len() > 0 {
                        assert(shown@[shown@.len() - 1] == shown@.last());
                    }
                }
                if text::blank(shown) {
                    return None;
                }
                Some(edits::completion_from_text(buffer, shown, cursor_position))
            },
            None => None,
        }
    }
}

/// Forgets the completion that is shown, and cancels the task that fetches
/// another one. The cached completions stay.
pub fn reset_completion_cache<C, T>(provider: &mut OllamaCompletionProvider<C, T>)
    ensures
        final(provider)@ == old(provider)@.reset(),
        *final(provider) == (OllamaCompletionProvider {
            pending_refresh: None,
            completion_text: None,
            completion_position: None,
            buffer_id: None,
            ..*old(provider)
        }),
        final(provider).well_formed() == old(provider).well_formed(),
{
    provider.pending_refresh = None;
    provider.completion_text = None;
    provider.completion_position = None;
    provider.buffer_id = None;
}

/// The way in which to go through completions.
#[derive(Clone, Copy, Debug, PartialEq, Eq, Structural)]
pub enum Direction {
    Prev,
    Next,
}

/// What the editor is to do after a refresh.
#[derive(Debug)]
pub enum RefreshAction {
    /// Nothing: the refresh was not due.
    Ignored,
    /// Notify those who watch the provider: a completion is there.
    Notify,
    /// Run these steps in the background, and keep the handle of the run.
    Spawn(RefreshTask),
}

/// The model of a `RefreshAction`.
pub enum ActionView {
    Ignored,
    Notify,
    Spawn(TaskView),
}

impl View for RefreshAction {
    type V = ActionView;

    open spec fn view(&self) -> ActionView {
        match self {
            RefreshAction::Ignored => ActionView::Ignored,
            RefreshAction::Notify => ActionView::Notify,
            RefreshAction::Spawn(task) => ActionView::Spawn(task@),
        }
    }
}

impl<C, T> ProviderView<C, T> {
    /// Whether a completion is on its way.
    pub open spec fn is_refreshing(self) -> bool {
        self.pending_refresh is Some && self.completion_text is None
    }

    /// The provider with no completion and no task; the cache stays.
    pub open spec fn reset(self) -> Self {
        ProviderView {
            pending_refresh: None,
            completion_text: None,
            completion_position: None,
            buffer_id: None,
            ..self
        }
    }

    /// The provider with a completion for a position in a buffer.
    pub open spec fn show(self, buffer_id: EntityId, position: Anchor, completion: Seq<char>) -> Self {
        ProviderView {
            completion_text: Some(completion),
            completion_position: Some(position),
            buffer_id: Some(buffer_id),
            ..self
        }
    }

    /// A refresh for a prompt with a known hash.
    pub open spec fn refresh_for_prompt(
        self,
        buffer_id: EntityId,
        position: Anchor,
        prompt: Seq<char>,
        prompt_hash: u64,
    ) -> (Self, ActionView) {
        match self.cache.get(prompt_hash) {
            Some(completion) => (
                self.reset().show(buffer_id, position, completion),
                ActionView::Notify,
            ),
            None => (
                self.reset(),
                ActionView::Spawn(
                    TaskView {
                        buffer_id,
                        cursor_position: position,
                        prompt,
                        prompt_hash,
                        api_url: self.api_url,
                        model: self.model,
                        should_health_check: !self.health_checked,
                    },
                ),
            ),
        }
    }

    /// A refresh at a cursor.
    pub open spec fn refresh(
        self,
        buffer_id: EntityId,
        text: Seq<char>,
        cursor: CursorPosition,
        debounce: bool,
    ) -> (Self, ActionView) {
        if debounce {
            let prompt = prompt::fim_prompt(text, cursor.offset as int);
            self.refresh_for_prompt(buffer_id, cursor.anchor, prompt, prompt::prompt_hash(prompt))
        } else {
            (self, ActionView::Ignored)
        }
    }

    /// The provider once a task has fetched a completion.
    pub open spec fn complete(self, task: TaskView, completion: Seq<char>) -> Self {
        ProviderView { cache: self.cache.store(task.prompt_hash, completion), ..self }.show(
            task.buffer_id,
            task.cursor_position,
            completion,
        )
    }

    /// The edits to suggest at a cursor.
    pub open spec fn suggestion(
        self,
        buffer_id: EntityId,
        text: Seq<char>,
        cursor: CursorPosition,
    ) -> Option<Seq<EditView>> {
        match self.completion_text {
            Some(completion) => if self.buffer_id == Some(buffer_id) && self.completion_position
                == Some(cursor.anchor) && !text::is_blank(text::offered(completion)) {
                Some(
                    edits::completion_edits(
                        text,
                        cursor.offset as int,
                        text::offered(completion),
                    ),
                )
            } else {
                None
            },
            None => None,
        }
    }
}

} // verus!
