//! The decisions behind the server page's start and stop buttons and its
//! status line.

use vstd::prelude::*;

use crate::server_state::{ServerLifecycleStatus, ServerStateManager, ServerStatus};
use crate::settings::AppSettings;

verus! {

/// Why a start or stop request was refused.
#[derive(Debug, Clone, Copy, PartialEq, Eq, Structural)]
pub enum ServerCommandError {
    /// Start asked while the server is starting, running or stopping.
    AlreadyActive,
    /// Stop asked while the server does not serve.
    NotRunning,
    /// Stop asked, but no handle to stop the server was held.
    ShutdownFailed,
}

impl ServerCommandError {
    /// The message shown to the user.
    pub fn message(&self) -> (m: String)
        ensures
            m@ == match *self {
                ServerCommandError::AlreadyActive => "Server is already active"@,
                ServerCommandError::NotRunning => "Server is not running"@,
                ServerCommandError::ShutdownFailed => "Failed to send shutdown signal"@,
            },
    {
        match self {
            ServerCommandError::AlreadyActive => "Server is already active".to_owned(),
            ServerCommandError::NotRunning => "Server is not running".to_owned(),
            ServerCommandError::ShutdownFailed => "Failed to send shutdown signal".to_owned(),
        }
    }
}

/// Moves the server to `Starting`, unless it is already active, in which
/// case nothing changes.
pub fn start_server(state: &mut ServerStateManager) -> (r: Result<(), ServerCommandError>)
    ensures
        old(state).spec_is_active() ==> r == Err::<(), ServerCommandError>(
            ServerCommandError::AlreadyActive,
        ) && *final(state) == *old(state),
        !old(state).spec_is_active() ==> r is Ok && final(state).spec_status()
            == ServerLifecycleStatus::Starting && !final(state).spec_running()
            && final(state).spec_next_log_id() == old(state).spec_next_log_id()
            && final(state).spec_shutdown_handle() == old(state).spec_shutdown_handle(),
        final(state).inv() == (old(state).inv() || r is Ok),
{
    if state.is_active() {
        return Err(ServerCommandError::AlreadyActive);
    }
    state.set_starting();
    Ok(())
}

/// Signals a serving server to stop and moves it to `Stopping`; refused,
/// with nothing changed, where it does not serve or no stop handle is held.
pub fn stop_server(state: &mut ServerStateManager) -> (r: Result<(), ServerCommandError>)
    ensures
        !old(state).spec_running() ==> r == Err::<(), ServerCommandError>(
            ServerCommandError::NotRunning,
        ) && *final(state) == *old(state),
        old(state).spec_running() && !old(state).spec_has_shutdown_handle() ==> r == Err::<
            (),
            ServerCommandError,
        >(ServerCommandError::ShutdownFailed) && final(state).spec_status()
            == old(state).spec_status() && final(state).spec_running()
            == old(state).spec_running(),
        old(state).spec_running() && old(state).spec_has_shutdown_handle() ==> r is Ok
            && final(state).spec_status() == ServerLifecycleStatus::Stopping
            && !final(state).spec_has_shutdown_handle() && final(state).spec_running(),
        final(state).spec_next_log_id() == old(state).spec_next_log_id(),
        old(state).inv() ==> final(state).inv(),
{
    if !state.is_running() {
        return Err(ServerCommandError::NotRunning);
    }
    if state.trigger_shutdown() {
        state.set_stopping();
        Ok(())
    } else {
        Err(ServerCommandError::ShutdownFailed)
    }
}

/// A start that was accepted leaves the server active, so a second start is
/// refused until the server has stopped or failed; and a stop that was
/// accepted leaves it stopping, so it stays active until it reports back.
pub proof fn lemma_accepted_requests_keep_server_active(s: ServerStateManager)
    requires
        s.spec_status() == ServerLifecycleStatus::Starting || s.spec_status()
            == ServerLifecycleStatus::Stopping,
    ensures
        s.spec_is_active(),
{
}

/// The status line: whether the server serves and its lifecycle status
/// (stopped where no server state exists yet), the configured address, and
/// whether a model is loaded.
pub fn get_server_status(
    state: Option<&ServerStateManager>,
    settings: &AppSettings,
    model_loaded: bool,
) -> (s: ServerStatus)
    ensures
        s.running == match state {
            Some(st) => st.spec_running(),
            None => false,
        },
        s.status == match state {
            Some(st) => st.spec_status(),
            None => ServerLifecycleStatus::Stopped,
        },
        s.host@ == settings.server_host@,
        s.port == settings.server_port,
        s.model_loaded == model_loaded,
{
    let (running, status) = match state {
        Some(st) => (st.is_running(), st.status()),
        None => (false, ServerLifecycleStatus::Stopped),
    };
    ServerStatus {
        running,
        status,
        host: settings.server_host.clone(),
        port: settings.server_port,
        model_loaded,
    }
}

} // verus!
