//! The task that a refresh starts in the background.

use vstd::prelude::*;

use crate::buffer::Anchor;
use crate::buffer::EntityId;
use crate::health;
use crate::generate;
use crate::status::OllamaConnectionStatus;
use crate::status::StatusView;

verus! {

/// How long a refresh waits before it asks the server, in milliseconds.
pub const DEBOUNCE_TIMEOUT_MILLIS: u64 = 75;

/// What the background task of a refresh works with.
#[derive(Debug)]
pub struct RefreshTask {
    pub buffer_id: EntityId,
    pub cursor_position: Anchor,
    pub prompt: String,
    pub prompt_hash: u64,
    pub api_url: String,
    pub model: String,
    /// Whether to check the server's health before asking it.
    pub should_health_check: bool,
}

/// The model of a `RefreshTask`.
pub struct TaskView {
    pub buffer_id: EntityId,
    pub cursor_position: Anchor,
    pub prompt: Seq<char>,
    pub prompt_hash: u64,
    pub api_url: Seq<char>,
    pub model: Seq<char>,
    pub should_health_check: bool,
}

impl View for RefreshTask {
    type V = TaskView;

    open spec fn view(&self) -> TaskView {
        TaskView {
            buffer_id: self.buffer_id,
            cursor_position: self.cursor_position,
            prompt: self.prompt@,
            prompt_hash: self.prompt_hash,
            api_url: self.api_url@,
            model: self.model@,
            should_health_check: self.should_health_check,
        }
    }
}

/// What happened last in a background task.
#[derive(Debug)]
pub enum RefreshEvent {
    /// Nothing yet.
    Start,
    /// The wait is over.
    TimerElapsed,
    /// The health check has this result.
    HealthChecked(Result<(), String>),
    /// The provider knows that a health check has ended, with this result.
    HealthRecorded(Result<(), String>),
    /// Fetching the completion has this result.
    Fetched(Result<String, String>),
    /// The provider took the completion.
    Stored,
    /// The status was set.
    StatusSet,
    /// The provider or the application is gone.
    Released,
}

/// The model of a `RefreshEvent`.
pub enum RefreshEventView {
    Start,
    TimerElapsed,
    HealthChecked(Result<(), Seq<char>>),
    HealthRecorded(Result<(), Seq<char>>),
    Fetched(Result<Seq<char>, Seq<char>>),
    Stored,
    StatusSet,
    Released,
}

impl View for RefreshEvent {
    type V = RefreshEventView;

    open spec fn view(&self) -> RefreshEventView {
        match self {
            RefreshEvent::Start => RefreshEventView::Start,
            RefreshEvent::TimerElapsed => RefreshEventView::TimerElapsed,
            RefreshEvent::HealthChecked(result) => RefreshEventView::HealthChecked(
                health::outcome(*result),
            ),
            RefreshEvent::HealthRecorded(result) => RefreshEventView::HealthRecorded(
                health::outcome(*result),
            ),
            RefreshEvent::Fetched(result) => RefreshEventView::Fetched(generate::fetched(*result)),
            RefreshEvent::Stored => RefreshEventView::Stored,
            RefreshEvent::StatusSet => RefreshEventView::StatusSet,
            RefreshEvent::Released => RefreshEventView::Released,
        }
    }
}

/// What a background task does next.
#[derive(Debug)]
pub enum RefreshStep {
    /// Wait.
    Wait { millis: u64 },
    /// Check the health of a server, for a model.
    CheckHealth { api_url: String, model: String },
    /// Tell the provider, where it is still there, that a health check has ended,
    /// with this result.
    RecordHealthCheck(Result<(), String>),
    /// Fetch the completion of a prompt.
    Fetch { api_url: String, model: String, prompt: String },
    /// Hand the completion to the provider, and notify those who watch it.
    Store { completion: String },
    /// Set the status of the connection.
    SetStatus(OllamaConnectionStatus),
    /// Stop.
    Finish,
}

/// The model of a `RefreshStep`.
pub enum StepView {
    Wait { millis: int },
    CheckHealth { api_url: Seq<char>, model: Seq<char> },
    RecordHealthCheck(Result<(), Seq<char>>),
    Fetch { api_url: Seq<char>, model: Seq<char>, prompt: Seq<char> },
    Store { completion: Seq<char> },
    SetStatus(StatusView),
    Finish,
}

impl View for RefreshStep {
    type V = StepView;

    open spec fn view(&self) -> StepView {
        match self {
            RefreshStep::Wait { millis } => StepView::Wait { millis: *millis as int },
            RefreshStep::CheckHealth { api_url, model } => StepView::CheckHealth {
                api_url: api_url@,
                model: model@,
            },
            RefreshStep::RecordHealthCheck(result) => StepView::RecordHealthCheck(
                health::outcome(*result),
            ),
            RefreshStep::Fetch { api_url, model, prompt } => StepView::Fetch {
                api_url: api_url@,
                model: model@,
                prompt: prompt@,
            },
            RefreshStep::Store { completion } => StepView::Store { completion: completion@ },
            RefreshStep::SetStatus(status) => StepView::SetStatus(status@),
            RefreshStep::Finish => StepView::Finish,
        }
    }
}

impl TaskView {
    /// Checking the health of the task's server.
    pub open spec fn check_health(self) -> StepView {
        StepView::CheckHealth { api_url: self.api_url, model: self.model }
    }

    /// Fetching the completion of the task's prompt.
    pub open spec fn fetch(self) -> StepView {
        StepView::Fetch { api_url: self.api_url, model: self.model, prompt: self.prompt }
    }
}

/// What a background task does after an event. It waits, checks the server's
/// health where that is due and has the provider know that it did, fetches the
/// completion, hands it over and reports the connection; a failure is reported
/// and ends the task.
pub open spec fn refresh_step(task: TaskView, event: RefreshEventView) -> StepView {
    match event {
        RefreshEventView::Start => StepView::Wait { millis: DEBOUNCE_TIMEOUT_MILLIS as int },
        RefreshEventView::TimerElapsed => if task.should_health_check {
            task.check_health()
        } else {
            task.fetch()
        },
        RefreshEventView::HealthChecked(result) => StepView::RecordHealthCheck(result),
        RefreshEventView::HealthRecorded(Ok(_)) => task.fetch(),
        RefreshEventView::HealthRecorded(Err(e)) => StepView::SetStatus(StatusView::Error(e)),
        RefreshEventView::Fetched(Ok(completion)) => StepView::Store { completion },
        RefreshEventView::Fetched(Err(e)) => StepView::SetStatus(StatusView::Error(e)),
        RefreshEventView::Stored => StepView::SetStatus(StatusView::Connected),
        RefreshEventView::StatusSet => StepView::Finish,
        RefreshEventView::Released => StepView::Finish,
    }
}

impl RefreshTask {
    /// Fetching the completion of the task's prompt.
    fn fetch(&self) -> (step: RefreshStep)
        ensures
            step@ == self@.fetch(),
    {
        RefreshStep::Fetch {
            api_url: self.api_url.clone(),
            model: self.model.clone(),
            prompt: self.prompt.clone(),
        }
    }

    /// What the task does after an event.
    pub fn next_step(&self, event: RefreshEvent) -> (step: RefreshStep)
        ensures
            step@ == refresh_step(self@, event@),
            match event {
                RefreshEvent::Start => step matches RefreshStep::Wait { millis } && millis == 75,
                RefreshEvent::TimerElapsed => if self.should_health_check {
                    step matches RefreshStep::CheckHealth { api_url, model } && api_url@
                        == self.api_url@ && model@ == self.model@
                } else {
                    step matches RefreshStep::Fetch { api_url, model, prompt } && api_url@
                        == self.api_url@ && model@ == self.model@ && prompt@ == self.prompt@
                },
                RefreshEvent::HealthChecked(result) => step matches RefreshStep::RecordHealthCheck(
                    recorded,
                ) && recorded == result,
                RefreshEvent::HealthRecorded(Ok(_)) => step matches RefreshStep::Fetch {
                    api_url,
                    model,
                    prompt,
                } && api_url@ == self.api_url@ && model@ == self.model@ && prompt@ == self.prompt@,
                RefreshEvent::HealthRecorded(Err(e)) => step == RefreshStep::SetStatus(
                    OllamaConnectionStatus::Error(e),
                ),
                RefreshEvent::Fetched(Ok(completion)) => step == (RefreshStep::Store {
                    completion,
                }),
                RefreshEvent::Fetched(Err(e)) => step == RefreshStep::SetStatus(
                    OllamaConnectionStatus::Error(e),
                ),
                RefreshEvent::Stored => step == RefreshStep::SetStatus(
                    OllamaConnectionStatus::Connected,
                ),
                RefreshEvent::StatusSet => step is Finish,
                RefreshEvent::Released => step is Finish,
            },
    {
        match event {
            RefreshEvent::Start => RefreshStep::Wait { millis: DEBOUNCE_TIMEOUT_MILLIS },
            RefreshEvent::TimerElapsed => {
                if self.should_health_check {
                    RefreshStep::CheckHealth {
                        api_url: self.api_url.clone(),
                        model: self.model.clone(),
                    }
                } else {
                    self.fetch()
                }
            },
            RefreshEvent::HealthChecked(result) => RefreshStep::RecordHealthCheck(result),
            RefreshEvent::HealthRecorded(result) => match result {
                Ok(()) => self.fetch(),
                Err(error) => RefreshStep::SetStatus(OllamaConnectionStatus::Error(error)),
            },
            RefreshEvent::Fetched(result) => match result {
                Ok(completion) => RefreshStep::Store { completion },
                Err(error) => RefreshStep::SetStatus(OllamaConnectionStatus::Error(error)),
            },
            RefreshEvent::Stored => RefreshStep::SetStatus(OllamaConnectionStatus::Connected),
            RefreshEvent::StatusSet => RefreshStep::Finish,
            RefreshEvent::Released => RefreshStep::Finish,
        }
    }
}

/// Whatever a task is asked to do, it does for its own server, model and prompt,
/// and hands on what it was told: results of a health check, completions and
/// errors reach the provider and the status as they came.
pub proof fn steps_hand_on_what_they_are_told(
    task: TaskView,
    message: Seq<char>,
    health: Result<(), Seq<char>>,
)
    ensures
        refresh_step(task, RefreshEventView::Start) == (StepView::Wait { millis: 75 }),
        refresh_step(task, RefreshEventView::TimerElapsed) == if task.should_health_check {
            StepView::CheckHealth { api_url: task.api_url, model: task.model }
        } else {
            StepView::Fetch { api_url: task.api_url, model: task.model, prompt: task.prompt }
        },
        refresh_step(task, RefreshEventView::HealthChecked(health)) == StepView::RecordHealthCheck(
            health,
        ),
        refresh_step(task, RefreshEventView::HealthRecorded(Ok(()))) == (StepView::Fetch {
            api_url: task.api_url,
            model: task.model,
            prompt: task.prompt,
        }),
        refresh_step(task, RefreshEventView::HealthRecorded(Err(message))) == StepView::SetStatus(
            StatusView::Error(message),
        ),
        refresh_step(task, RefreshEventView::Fetched(Ok(message))) == (StepView::Store {
            completion: message,
        }),
        refresh_step(task, RefreshEventView::Fetched(Err(message))) == StepView::SetStatus(
            StatusView::Error(message),
        ),
        refresh_step(task, RefreshEventView::Stored) == StepView::SetStatus(StatusView::Connected),
        refresh_step(task, RefreshEventView::StatusSet) == StepView::Finish,
        refresh_step(task, RefreshEventView::Released) == StepView::Finish,
{
}

/// What answers a step where the provider and the application stay: the health
/// check and the fetch have the given results.
pub open spec fn answer(
    step: StepView,
    health: Result<(), Seq<char>>,
    fetch: Result<Seq<char>, Seq<char>>,
) -> RefreshEventView {
    match step {
        StepView::Wait { .. } => RefreshEventView::TimerElapsed,
        StepView::CheckHealth { .. } => RefreshEventView::HealthChecked(health),
        StepView::RecordHealthCheck(result) => RefreshEventView::HealthRecorded(result),
        StepView::Fetch { .. } => RefreshEventView::Fetched(fetch),
        StepView::Store { .. } => RefreshEventView::Stored,
        StepView::SetStatus(_) => RefreshEventView::StatusSet,
        StepView::Finish => RefreshEventView::Released,
    }
}

/// How many steps a task may still take after an event.
pub open spec fn steps_left(event: RefreshEventView) -> nat {
    match event {
        RefreshEventView::Start => 7,
        RefreshEventView::TimerElapsed => 6,
        RefreshEventView::HealthChecked(_) => 5,
        RefreshEventView::HealthRecorded(_) => 4,
        RefreshEventView::Fetched(_) => 3,
        RefreshEventView::Stored => 2,
        RefreshEventView::StatusSet => 1,
        RefreshEventView::Released => 0,
    }
}

/// The steps of a task from an event on.
pub open spec fn run(
    task: TaskView,
    health: Result<(), Seq<char>>,
    fetch: Result<Seq<char>, Seq<char>>,
    event: RefreshEventView,
) -> Seq<StepView>
    decreases steps_left(event),
{
    let step = refresh_step(task, event);
    if step is Finish {
        seq![step]
    } else {
        seq![step] + run(task, health, fetch, answer(step, health, fetch))
    }
}

/// Every task comes to an end. It asks the server for nothing before it has
/// waited, for no completion where a health check was due and failed, and has the
/// provider know of every check as soon as it has ended. It stores exactly the
/// completion that was fetched; the status that it leaves is `Connected` after a
/// completion, and the error otherwise.
pub proof fn task_runs_to_its_end(
    task: TaskView,
    health: Result<(), Seq<char>>,
    fetch: Result<Seq<char>, Seq<char>>,
)
    ensures
        ({
            let wait = seq![StepView::Wait { millis: 75 }];
            let ask = StepView::Fetch {
                api_url: task.api_url,
                model: task.model,
                prompt: task.prompt,
            };
            let check = if task.should_health_check {
                seq![
                    StepView::CheckHealth { api_url: task.api_url, model: task.model },
                    StepView::RecordHealthCheck(health),
                ]
            } else {
                Seq::empty()
            };
            let steps = run(task, health, fetch, RefreshEventView::Start);
            if task.should_health_check && health is Err {
                steps == wait + check + seq![
                    StepView::SetStatus(StatusView::Error(health->Err_0)),
                    StepView::Finish,
                ]
            } else {
                match fetch {
                    Ok(completion) => steps == wait + check + seq![
                        ask,
                        StepView::Store { completion },
                        StepView::SetStatus(StatusView::Connected),
                        StepView::Finish,
                    ],
                    Err(error) => steps == wait + check + seq![
                        ask,
                        StepView::SetStatus(StatusView::Error(error)),
                        StepView::Finish,
                    ],
                }
            }
        }),
{
    reveal_with_fuel(run, 8);
}

} // verus!
