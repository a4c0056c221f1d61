//! What holds of a provider across several calls.

use std::collections::hash_map::DefaultHasher;

use vstd::prelude::*;
use vstd::std_specs::hash::*;
use vstd::utf8::*;

use crate::buffer::CursorPosition;
use crate::buffer::EntityId;
use crate::cache;
use crate::edits;
use crate::health;
use crate::health::HealthActionView;
use crate::health::HealthEventView;
use crate::prompt;
use crate::provider::ActionView;
use crate::provider::ProviderView;
use crate::refresh;
use crate::refresh::RefreshEventView;
use crate::refresh::StepView;
use crate::refresh::TaskView;
use crate::text;

verus! {

/// After a reset nothing is suggested anywhere and nothing is on its way, and
/// the server, the model and the cached completions are as before.
pub proof fn reset_forgets_the_completion<C, T>(
    provider: ProviderView<C, T>,
    buffer_id: EntityId,
    text: Seq<char>,
    cursor: CursorPosition,
)
    ensures
        provider.reset().suggestion(buffer_id, text, cursor) is None,
        !provider.reset().is_refreshing(),
        provider.reset() == (ProviderView {
            pending_refresh: None,
            completion_text: None,
            completion_position: None,
            buffer_id: None,
            ..provider
        }),
        provider.reset().cache == provider.cache,
        provider.reset().api_url == provider.api_url,
        provider.reset().model == provider.model,
        provider.reset().health_checked == provider.health_checked,
        provider.reset().reset() == provider.reset(),
{
}

/// A refresh forgets the completion that was shown before: until the task that
/// it starts has fetched another one nothing is suggested, and the provider is
/// refreshing.
pub proof fn refresh_waits_for_its_task<C, T>(
    provider: ProviderView<C, T>,
    buffer_id: EntityId,
    text: Seq<char>,
    cursor: CursorPosition,
    handle: T,
    other_buffer: EntityId,
    other_text: Seq<char>,
    other_cursor: CursorPosition,
)
    requires
        provider.refresh(buffer_id, text, cursor, true).1 is Spawn,
    ensures
        ({
            let waiting = ProviderView {
                pending_refresh: Some(handle),
                ..provider.refresh(buffer_id, text, cursor, true).0
            };
            &&& waiting.is_refreshing()
            &&& waiting.suggestion(other_buffer, other_text, other_cursor) is None
        }),
{
}

/// A fetched completion is suggested in the buffer and at the position that it
/// was fetched for, unless there is nothing in it to show, and nowhere else; and
/// the provider is not refreshing any more.
pub proof fn completion_is_suggested_where_it_belongs<C, T>(
    provider: ProviderView<C, T>,
    task: TaskView,
    completion: Seq<char>,
    buffer_id: EntityId,
    text: Seq<char>,
    cursor: CursorPosition,
)
    ensures
        ({
            let suggestion = provider.complete(task, completion).suggestion(
                buffer_id,
                text,
                cursor,
            );
            let shown = text::offered(completion);
            if buffer_id == task.buffer_id && cursor.anchor == task.cursor_position
                && !text::is_blank(shown) {
                suggestion == Some(edits::completion_edits(text, cursor.offset as int, shown))
            } else {
                suggestion is None
            }
        }),
        !provider.complete(task, completion).is_refreshing(),
{
}

/// A completion is fetched once: where a refresh had to start a task, the same
/// refresh after the task's completion came, and even after that completion was
/// accepted or discarded, shows it again without asking the server.
pub proof fn second_refresh_hits_the_cache<C, T>(
    provider: ProviderView<C, T>,
    buffer_id: EntityId,
    text: Seq<char>,
    cursor: CursorPosition,
    handle: T,
    completion: Seq<char>,
)
    requires
        provider.refresh(buffer_id, text, cursor, true).1 is Spawn,
    ensures
        ({
            let (started, action) = provider.refresh(buffer_id, text, cursor, true);
            let waiting = ProviderView { pending_refresh: Some(handle), ..started };
            let completed = waiting.complete(action->Spawn_0, completion);
            let (again, second) = completed.refresh(buffer_id, text, cursor, true);
            let (after_reset, third) = completed.reset().refresh(buffer_id, text, cursor, true);
            &&& second is Notify
            &&& third is Notify
            &&& again.completion_text == Some(completion)
            &&& again.completion_position == Some(cursor.anchor)
            &&& again.buffer_id == Some(buffer_id)
            &&& again.pending_refresh is None
            &&& again.cache == completed.cache
            &&& after_reset == again
        }),
{
    let (started, action) = provider.refresh(buffer_id, text, cursor, true);
    cache::stored_completion_is_found(started.cache, action->Spawn_0.prompt_hash, completion);
}

/// A provider is refreshing while a task is pending and no completion is shown.
/// It suggests the completion that it shows in one buffer, at one position, and only
/// where there is something in it to show: then the edits that thread what is
/// offered of it through the rest of the cursor's line.
pub proof fn shown_completion_is_suggested<C, T>(
    provider: ProviderView<C, T>,
    buffer_id: EntityId,
    text: Seq<char>,
    cursor: CursorPosition,
)
    ensures
        provider.is_refreshing() <==> provider.pending_refresh is Some
            && provider.completion_text is None,
        provider.suggestion(buffer_id, text, cursor) == if provider.buffer_id == Some(buffer_id)
            && provider.completion_position == Some(cursor.anchor)
            && provider.completion_text is Some && text::offered(
            provider.completion_text->Some_0,
        ).len() > 0 {
            Some(
                edits::completion_edits(
                    text,
                    cursor.offset as int,
                    text::offered(provider.completion_text->Some_0),
                ),
            )
        } else {
            None
        },
{
    if let Some(completion) = provider.completion_text {
        text::trimmed_end_is_a_prefix(text::first_line_unless_leading_newline(completion));
    }
}

/// The one line that a fetched completion starts with is what the user gets: where
/// the clusters between the cursor and the end of its line occur in that line in
/// order, at the indices `at`, making the suggested edits puts it in their place.
/// White space at the end of the line, and everything beyond the line, is dropped
/// from the completion; nothing else in the text changes.
pub proof fn suggestion_completes_the_line<C, T>(
    provider: ProviderView<C, T>,
    task: TaskView,
    cursor: CursorPosition,
    before: Seq<char>,
    line: Seq<char>,
    beyond: Seq<char>,
    shown: Seq<char>,
    white: Seq<char>,
    dropped: Seq<char>,
    at: Seq<int>,
)
    requires
        cursor.anchor == task.cursor_position,
        cursor.offset == encode_utf8(before).len(),
        !line.contains('\n'),
        beyond.len() == 0 || beyond[0] == '\n',
        shown.len() > 0 && !text::is_white_space(shown.last()) && !shown.contains('\n'),
        forall|i: int| 0 <= i < white.len() ==> text::is_white_space(#[trigger] white[i]),
        !white.contains('\n'),
        edits::grapheme_clusters(line, true).flatten() == line,
        edits::grapheme_clusters(shown, true).flatten() == shown,
        at.len() == edits::grapheme_clusters(line, true).len(),
        forall|i: int|
            0 <= i < at.len() ==> 0 <= #[trigger] at[i] < edits::grapheme_clusters(
                shown,
                true,
            ).len() && edits::grapheme_clusters(shown, true)[at[i]] == edits::grapheme_clusters(
                line,
                true,
            )[i],
        forall|i: int, j: int| 0 <= i < j < at.len() ==> at[i] < at[j],
    ensures
        ({
            let text = before + line + beyond;
            let one_line = provider.complete(task, shown + white);
            let more = provider.complete(task, (shown + white).push('\n') + dropped);
            let edited = encode_utf8(before + shown + beyond);
            &&& one_line.suggestion(task.buffer_id, text, cursor) matches Some(edits)
                && edits::apply_edits(encode_utf8(text), edits) == edited
            &&& more.suggestion(task.buffer_id, text, cursor) matches Some(edits)
                && edits::apply_edits(encode_utf8(text), edits) == edited
        }),
{
    let text = before + line + beyond;
    text::first_line_or_all_is_offered(shown, white, dropped, Seq::empty(), shown);
    edits::line_becomes_the_completion(before, line, beyond, shown, at);
    shown_completion_is_suggested(
        provider.complete(task, shown + white),
        task.buffer_id,
        text,
        cursor,
    );
    shown_completion_is_suggested(
        provider.complete(task, (shown + white).push('\n') + dropped),
        task.buffer_id,
        text,
        cursor,
    );
}

/// A refresh looks for the completion of the whole prompt. Where one is cached
/// under the hash of all of it, that one is shown at the cursor; else a task starts
/// that asks the configured server and model for the completion of this prompt. The
/// cache, the server and the model stay as they are; and a refresh that is not due
/// changes nothing.
pub proof fn refresh_looks_for_the_whole_prompt<C, T>(
    provider: ProviderView<C, T>,
    buffer_id: EntityId,
    text: Seq<char>,
    cursor: CursorPosition,
)
    ensures
        provider.refresh(buffer_id, text, cursor, false) == (provider, ActionView::Ignored),
        ({
            let prompt = prompt::fim_prompt(text, cursor.offset as int);
            let hash = DefaultHasher::spec_finish(prompt::str_hash_writes(prompt));
            let (after, action) = provider.refresh(buffer_id, text, cursor, true);
            if provider.cache.entries.contains_key(hash) {
                &&& action == ActionView::Notify
                &&& after == ProviderView {
                    pending_refresh: None,
                    completion_text: Some(provider.cache.entries[hash]),
                    completion_position: Some(cursor.anchor),
                    buffer_id: Some(buffer_id),
                    ..provider
                }
            } else {
                &&& action == ActionView::Spawn(
                    TaskView {
                        buffer_id,
                        cursor_position: cursor.anchor,
                        prompt,
                        prompt_hash: hash,
                        api_url: provider.api_url,
                        model: provider.model,
                        should_health_check: !provider.health_checked,
                    },
                )
                &&& after == ProviderView {
                    pending_refresh: None,
                    completion_text: None,
                    completion_position: None,
                    buffer_id: None,
                    ..provider
                }
            }
        }),
{
}

/// A completion is shown again only for the prompt that it was fetched for. A
/// refresh at another place, after the completion of a first one came, shows it
/// only where the hasher does not tell the two whole prompts apart. Else it shows
/// what was cached for its own prompt before, or starts a task for that prompt; and
/// it does start one where nothing was.
pub proof fn completion_is_shown_for_its_prompt_alone<C, T>(
    provider: ProviderView<C, T>,
    buffer_id: EntityId,
    text: Seq<char>,
    cursor: CursorPosition,
    completion: Seq<char>,
    other_buffer: EntityId,
    other_text: Seq<char>,
    other_cursor: CursorPosition,
)
    requires
        provider.cache.well_formed(),
        provider.refresh(buffer_id, text, cursor, true).1 is Spawn,
    ensures
        ({
            let prompt = prompt::fim_prompt(text, cursor.offset as int);
            let other_prompt = prompt::fim_prompt(other_text, other_cursor.offset as int);
            let hash = DefaultHasher::spec_finish(prompt::str_hash_writes(prompt));
            let other_hash = DefaultHasher::spec_finish(prompt::str_hash_writes(other_prompt));
            let (started, first) = provider.refresh(buffer_id, text, cursor, true);
            let completed = started.complete(first->Spawn_0, completion);
            let (after, second) = completed.refresh(other_buffer, other_text, other_cursor, true);
            if hash == other_hash {
                &&& second is Notify
                &&& after.completion_text == Some(completion)
            } else {
                &&& second is Spawn ==> second->Spawn_0.prompt == other_prompt
                    && after.completion_text is None
                &&& second is Notify ==> provider.cache.entries.contains_key(other_hash)
                    && after.completion_text == Some(provider.cache.entries[other_hash])
                &&& !provider.cache.entries.contains_key(other_hash) ==> second is Spawn
                &&& !(second is Ignored)
            }
        }),
{
    let (started, first) = provider.refresh(buffer_id, text, cursor, true);
    let completed = started.complete(first->Spawn_0, completion);
    refresh_looks_for_the_whole_prompt(provider, buffer_id, text, cursor);
    refresh_looks_for_the_whole_prompt(completed, other_buffer, other_text, other_cursor);
    cache::store_replaces_or_adds(provider.cache, first->Spawn_0.prompt_hash, completion, 0);
}

/// A completion that a task has fetched is cached under the task's hash, and shown
/// in the task's buffer at the task's position. Nothing else changes.
pub proof fn fetched_completion_is_cached_and_shown<C, T>(
    provider: ProviderView<C, T>,
    task: TaskView,
    completion: Seq<char>,
)
    ensures
        provider.complete(task, completion) == (ProviderView {
            cache: provider.cache.store(task.prompt_hash, completion),
            completion_text: Some(completion),
            completion_position: Some(task.cursor_position),
            buffer_id: Some(task.buffer_id),
            ..provider
        }),
        provider.complete(task, completion).cache.entries.contains_key(task.prompt_hash),
        provider.complete(task, completion).cache.entries[task.prompt_hash] == completion,
{
}

/// What may be done to a provider.
pub enum Operation<T> {
    WithUrl(Seq<char>),
    WithModel(Seq<char>),
    Refresh { buffer_id: EntityId, text: Seq<char>, cursor: CursorPosition, debounce: bool },
    SetPendingRefresh(T),
    HealthCheckPerformed,
    CompleteRefresh { task: TaskView, completion: Seq<char> },
    CacheCompletion { prompt_hash: u64, completion: Seq<char> },
    /// The completion was accepted or discarded.
    Reset,
}

/// A provider after an operation.
pub open spec fn after_one<C, T>(
    provider: ProviderView<C, T>,
    operation: Operation<T>,
) -> ProviderView<C, T> {
    match operation {
        Operation::WithUrl(api_url) => ProviderView { api_url, ..provider },
        Operation::WithModel(model) => ProviderView { model, ..provider },
        Operation::Refresh { buffer_id, text, cursor, debounce } => provider.refresh(
            buffer_id,
            text,
            cursor,
            debounce,
        ).0,
        Operation::SetPendingRefresh(handle) => ProviderView {
            pending_refresh: Some(handle),
            ..provider
        },
        Operation::HealthCheckPerformed => ProviderView { health_checked: true, ..provider },
        Operation::CompleteRefresh { task, completion } => provider.complete(task, completion),
        Operation::CacheCompletion { prompt_hash, completion } => ProviderView {
            cache: provider.cache.store(prompt_hash, completion),
            ..provider
        },
        Operation::Reset => provider.reset(),
    }
}

/// A provider after a sequence of operations, one by one.
pub open spec fn after_all<C, T>(
    provider: ProviderView<C, T>,
    operations: Seq<Operation<T>>,
) -> ProviderView<C, T>
    decreases operations.len(),
{
    if operations.len() == 0 {
        provider
    } else {
        after_one(after_all(provider, operations.drop_last()), operations.last())
    }
}

/// Whether a health check has ended in the course of the operations.
pub open spec fn check_has_ended<T>(operations: Seq<Operation<T>>) -> bool {
    exists|i: int| 0 <= i < operations.len() && #[trigger] operations[i] is HealthCheckPerformed
}

/// The flag tells whether a health check has ended; no other operation changes
/// it.
proof fn lemma_health_checked<C, T>(
    provider: ProviderView<C, T>,
    operations: Seq<Operation<T>>,
)
    ensures
        after_all(provider, operations).health_checked == (provider.health_checked
            || check_has_ended(operations)),
    decreases operations.len(),
{
    if operations.len() > 0 {
        let init = operations.drop_last();
        lemma_health_checked(provider, init);
        if check_has_ended(init) {
            let i = choose|i: int|
                0 <= i < init.len() && #[trigger] init[i] is HealthCheckPerformed;
            assert(operations[i] is HealthCheckPerformed);
        }
        if check_has_ended(operations) && !(operations.last() is HealthCheckPerformed) {
            let i = choose|i: int|
                0 <= i < operations.len() && #[trigger] operations[i] is HealthCheckPerformed;
            assert(init[i] is HealthCheckPerformed);
        }
        if operations.last() is HealthCheckPerformed {
            assert(operations[operations.len() - 1] is HealthCheckPerformed);
        }
    }
}

/// The server's health is checked before the first request, once. Whatever was
/// done to a provider that has performed no check: as long as no check has ended,
/// with whatever result, every task that a refresh starts begins, after its wait,
/// with a check, whose request for the models is the first that the server gets;
/// and has the provider know as soon as the check has ended. Once one has ended,
/// no task that is started later checks again.
pub proof fn health_is_checked_once<C, T>(
    provider: ProviderView<C, T>,
    operations: Seq<Operation<T>>,
    buffer_id: EntityId,
    text: Seq<char>,
    cursor: CursorPosition,
    health: Result<(), Seq<char>>,
    fetch: Result<Seq<char>, Seq<char>>,
)
    requires
        !provider.health_checked,
        after_all(provider, operations).refresh(buffer_id, text, cursor, true).1 is Spawn,
    ensures
        ({
            let now = after_all(provider, operations);
            let task = now.refresh(buffer_id, text, cursor, true).1->Spawn_0;
            let steps = refresh::run(task, health, fetch, RefreshEventView::Start);
            if check_has_ended(operations) {
                forall|i: int| 0 <= i < steps.len() ==> !(#[trigger] steps[i] is CheckHealth)
            } else {
                &&& steps.len() > 3
                &&& steps[0] is Wait
                &&& steps[1] == StepView::CheckHealth { api_url: now.api_url, model: now.model }
                &&& steps[2] == StepView::RecordHealthCheck(health)
                &&& health::health_action(now.api_url, now.model, HealthEventView::Start)
                    == HealthActionView::Get { uri: now.api_url + "/api/tags"@ }
            }
        }),
{
    lemma_health_checked(provider, operations);
    let now = after_all(provider, operations);
    let task = now.refresh(buffer_id, text, cursor, true).1->Spawn_0;
    refresh::task_runs_to_its_end(task, health, fetch);
}

/// Whatever is done to a provider, its cache stays well-formed: it never holds
/// more than `MAX_CACHE_SIZE` completions, and lists each of them once.
pub proof fn cache_stays_well_formed<C, T>(
    provider: ProviderView<C, T>,
    operations: Seq<Operation<T>>,
)
    requires
        provider.cache.well_formed(),
    ensures
        after_all(provider, operations).cache.well_formed(),
        after_all(provider, operations).cache.entries.len() <= cache::MAX_CACHE_SIZE,
    decreases operations.len(),
{
    if operations.len() > 0 {
        let before = after_all(provider, operations.drop_last());
        cache_stays_well_formed(provider, operations.drop_last());
        match operations.last() {
            Operation::CompleteRefresh { task, completion } => {
                cache::store_keeps_well_formed(before.cache, task.prompt_hash, completion);
            },
            Operation::CacheCompletion { prompt_hash, completion } => {
                cache::store_keeps_well_formed(before.cache, prompt_hash, completion);
            },
            _ => {},
        }
    }
}

} // verus!
