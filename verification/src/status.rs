//! The state of the connection to the Ollama server, as the application
//! shows it.

use vstd::prelude::*;
use vstd::std_specs::cmp::PartialEqSpec;

use crate::text;

verus! {

/// What is known of the connection to the server.
#[derive(Debug)]
pub enum OllamaConnectionStatus {
    /// Nothing was asked of the server yet.
    Unknown,
    /// The last completion came.
    Connected,
    /// The last attempt failed, for this reason.
    Error(String),
}

/// The model of an `OllamaConnectionStatus`.
pub enum StatusView {
    Unknown,
    Connected,
    Error(Seq<char>),
}

impl View for OllamaConnectionStatus {
    type V = StatusView;

    open spec fn view(&self) -> StatusView {
        match self {
            OllamaConnectionStatus::Unknown => StatusView::Unknown,
            OllamaConnectionStatus::Connected => StatusView::Connected,
            OllamaConnectionStatus::Error(reason) => StatusView::Error(reason@),
        }
    }
}

impl Default for OllamaConnectionStatus {
    fn default() -> (status: Self)
        ensures
            status == OllamaConnectionStatus::Unknown,
    {
        OllamaConnectionStatus::Unknown
    }
}

impl Clone for OllamaConnectionStatus {
    fn clone(&self) -> (copy: Self)
        ensures
            copy == *self,
    {
        match self {
            OllamaConnectionStatus::Unknown => OllamaConnectionStatus::Unknown,
            OllamaConnectionStatus::Connected => OllamaConnectionStatus::Connected,
            OllamaConnectionStatus::Error(reason) => OllamaConnectionStatus::Error(reason.clone()),
        }
    }
}

impl PartialEq for OllamaConnectionStatus {
    fn eq(&self, other: &Self) -> (same: bool) {
        match (self, other) {
            (OllamaConnectionStatus::Unknown, OllamaConnectionStatus::Unknown) => true,
            (OllamaConnectionStatus::Connected, OllamaConnectionStatus::Connected) => true,
            (OllamaConnectionStatus::Error(a), OllamaConnectionStatus::Error(b)) => {
                text::same_text(a.as_str(), b.as_str())
            },
            _ => false,
        }
    }
}

impl vstd::std_specs::cmp::PartialEqSpecImpl for OllamaConnectionStatus {
    open spec fn obeys_eq_spec() -> bool {
        true
    }

    open spec fn eq_spec(&self, other: &Self) -> bool {
        self@ == other@
    }
}

/// Two statuses are equal if and only if they are of the same kind, and two
/// errors only where their reasons read the same.
pub proof fn statuses_equal_by_kind_and_reason(
    status: OllamaConnectionStatus,
    other: OllamaConnectionStatus,
)
    ensures
        status.eq_spec(&other) <==> match (status, other) {
            (OllamaConnectionStatus::Unknown, OllamaConnectionStatus::Unknown) => true,
            (OllamaConnectionStatus::Connected, OllamaConnectionStatus::Connected) => true,
            (OllamaConnectionStatus::Error(a), OllamaConnectionStatus::Error(b)) => a@ == b@,
            _ => false,
        },
{
}

/// The status as the application holds it.
#[derive(Debug)]
pub struct GlobalOllamaStatus(pub OllamaConnectionStatus);

impl Default for GlobalOllamaStatus {
    fn default() -> (status: Self)
        ensures
            status.0 == OllamaConnectionStatus::Unknown,
    {
        GlobalOllamaStatus(OllamaConnectionStatus::default())
    }
}

/// What the application keeps for all its parts: the status, once it was set.
#[derive(Debug)]
pub struct App {
    pub ollama_status: Option<GlobalOllamaStatus>,
}

impl View for App {
    type V = Option<StatusView>;

    open spec fn view(&self) -> Option<StatusView> {
        match self.ollama_status {
            Some(global) => Some(global.0@),
            None => None,
        }
    }
}

/// The status that is shown: what was set last, or `Unknown`.
pub open spec fn shown_status(app: Option<StatusView>) -> StatusView {
    match app {
        Some(status) => status,
        None => StatusView::Unknown,
    }
}

/// The application once a status was set.
pub open spec fn app_with_status(app: Option<StatusView>, status: StatusView) -> Option<
    StatusView,
> {
    Some(status)
}

/// The status of the connection: what was set last, or `Unknown`.
pub fn ollama_connection_status(cx: &App) -> (status: OllamaConnectionStatus)
    ensures
        status@ == shown_status(cx@),
        match cx.ollama_status {
            Some(global) => status == global.0,
            None => status is Unknown,
        },
{
    match &cx.ollama_status {
        Some(global) => global.0.clone(),
        None => GlobalOllamaStatus::default().0,
    }
}

/// Sets the status of the connection.
pub fn set_ollama_connection_status(status: OllamaConnectionStatus, cx: &mut App)
    ensures
        final(cx)@ == app_with_status(old(cx)@, status@),
        final(cx).ollama_status == Some(GlobalOllamaStatus(status)),
{
    cx.ollama_status = Some(GlobalOllamaStatus(status));
}

/// The status that is shown is the one that was set last, whatever the
/// application held before, and `Unknown` where none was set.
pub proof fn set_status_is_shown(app: Option<StatusView>, earlier: StatusView, status: StatusView)
    ensures
        shown_status(None) == StatusView::Unknown,
        shown_status(Some(status)) == status,
        shown_status(app_with_status(app, status)) == status,
        app_with_status(app_with_status(app, earlier), status) == app_with_status(app, status),
{
}

} // verus!
