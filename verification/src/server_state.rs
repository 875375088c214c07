//! Lifecycle of the local HTTP API server.

use tokio::sync::oneshot::Sender;
use vstd::prelude::*;

verus! {

#[verifier::external_type_specification]
#[verifier::external_body]
#[verifier::reject_recursive_types(T)]
pub struct ExOneshotSender<T>(Sender<T>);

/// Where the HTTP server is in its life.
#[derive(Debug, Clone, Copy, PartialEq, Eq, Structural)]
pub enum ServerLifecycleStatus {
    Stopped,
    Starting,
    Running,
    Stopping,
    Error,
}

/// The server's status as the settings page shows it.
#[derive(Debug, Clone)]
pub struct ServerStatus {
    pub running: bool,
    pub status: ServerLifecycleStatus,
    pub host: String,
    pub port: u16,
    pub model_loaded: bool,
}

/// State of the HTTP server: whether it serves, its lifecycle status, the id
/// of the next request log entry, and the handle that stops it.
pub struct ServerStateManager {
    running: bool,
    status: ServerLifecycleStatus,
    next_log_id: u64,
    shutdown_tx: Option<Sender<()>>,
}

/// `Sender::send`, fired and forgotten: the receiver may already be gone,
/// and what became of the value is not reported.
#[verifier::external_body]
fn send_shutdown(tx: Sender<()>) {
    let _ = tx.send(());
}

impl ServerStateManager {
    pub closed spec fn spec_running(&self) -> bool {
        self.running
    }

    pub closed spec fn spec_status(&self) -> ServerLifecycleStatus {
        self.status
    }

    pub closed spec fn spec_next_log_id(&self) -> u64 {
        self.next_log_id
    }

    /// The handle that stops the running server, if one is held.
    pub closed spec fn spec_shutdown_handle(&self) -> Option<Sender<()>> {
        self.shutdown_tx
    }

    /// Whether a handle that stops the server is held.
    pub open spec fn spec_has_shutdown_handle(&self) -> bool {
        self.spec_shutdown_handle() is Some
    }

    /// The server only serves while it runs or is being stopped, and it
    /// serves whenever it runs.
    pub open spec fn inv(&self) -> bool {
        &&& self.spec_running() ==> (self.spec_status() == ServerLifecycleStatus::Running
            || self.spec_status() == ServerLifecycleStatus::Stopping)
        &&& self.spec_status() == ServerLifecycleStatus::Running ==> self.spec_running()
    }

    /// The statuses in which the server holds (or is taking) its port.
    pub open spec fn spec_is_active(&self) -> bool {
        let s = self.spec_status();
        s == ServerLifecycleStatus::Starting || s == ServerLifecycleStatus::Running || s
            == ServerLifecycleStatus::Stopping
    }

    /// A stopped server whose first log entry will have id 1.
    pub fn new() -> (s: Self)
        ensures
            !s.spec_running(),
            s.spec_status() == ServerLifecycleStatus::Stopped,
            s.spec_next_log_id() == 1,
            s.spec_shutdown_handle() is None,
            s.inv(),
    {
        ServerStateManager {
            running: false,
            status: ServerLifecycleStatus::Stopped,
            next_log_id: 1,
            shutdown_tx: None,
        }
    }

    pub fn status(&self) -> (s: ServerLifecycleStatus)
        ensures
            s == self.spec_status(),
    {
        self.status
    }

    pub fn set_starting(&mut self)
        ensures
            !final(self).spec_running(),
            final(self).spec_status() == ServerLifecycleStatus::Starting,
            final(self).spec_next_log_id() == old(self).spec_next_log_id(),
            final(self).spec_shutdown_handle() == old(self).spec_shutdown_handle(),
            final(self).inv(),
    {
        self.running = false;
        self.status = ServerLifecycleStatus::Starting;
    }

    pub fn set_running(&mut self)
        ensures
            final(self).spec_running(),
            final(self).spec_status() == ServerLifecycleStatus::Running,
            final(self).spec_next_log_id() == old(self).spec_next_log_id(),
            final(self).spec_shutdown_handle() == old(self).spec_shutdown_handle(),
            final(self).inv(),
    {
        self.running = true;
        self.status = ServerLifecycleStatus::Running;
    }

    pub fn set_stopping(&mut self)
        ensures
            final(self).spec_running() == old(self).spec_running(),
            final(self).spec_status() == ServerLifecycleStatus::Stopping,
            final(self).spec_next_log_id() == old(self).spec_next_log_id(),
            final(self).spec_shutdown_handle() == old(self).spec_shutdown_handle(),
            final(self).inv(),
    {
        self.status = ServerLifecycleStatus::Stopping;
    }

    pub fn set_stopped(&mut self)
        ensures
            !final(self).spec_running(),
            final(self).spec_status() == ServerLifecycleStatus::Stopped,
            final(self).spec_next_log_id() == old(self).spec_next_log_id(),
            final(self).spec_shutdown_handle() == old(self).spec_shutdown_handle(),
            final(self).inv(),
    {
        self.running = false;
        self.status = ServerLifecycleStatus::Stopped;
    }

    pub fn set_error(&mut self)
        ensures
            !final(self).spec_running(),
            final(self).spec_status() == ServerLifecycleStatus::Error,
            final(self).spec_next_log_id() == old(self).spec_next_log_id(),
            final(self).spec_shutdown_handle() == old(self).spec_shutdown_handle(),
            final(self).inv(),
    {
        self.running = false;
        self.status = ServerLifecycleStatus::Error;
    }

    /// Whether the server is starting, running or stopping.
    pub fn is_active(&self) -> (r: bool)
        ensures
            r == self.spec_is_active(),
    {
        matches!(
            self.status,
            ServerLifecycleStatus::Starting | ServerLifecycleStatus::Running
                | ServerLifecycleStatus::Stopping
        )
    }

    pub fn is_running(&self) -> (r: bool)
        ensures
            r == self.spec_running(),
    {
        self.running
    }

    /// Hands out the id of the next request log entry (ids wrap around
    /// after `u64::MAX`).
    pub fn next_log_id(&mut self) -> (id: u64)
        ensures
            id == old(self).spec_next_log_id(),
            final(self).spec_next_log_id() == vstd::wrapping::u64_specs::wrapping_add(id, 1),
            final(self).spec_running() == old(self).spec_running(),
            final(self).spec_status() == old(self).spec_status(),
            final(self).spec_shutdown_handle() == old(self).spec_shutdown_handle(),
    {
        let id = self.next_log_id;
        self.next_log_id = id.wrapping_add(1);
        id
    }

    /// Keeps the handle that stops the running server, in place of any
    /// handle held before.
    pub fn set_shutdown_handle(&mut self, tx: Sender<()>)
        ensures
            final(self).spec_shutdown_handle() == Some(tx),
            final(self).spec_running() == old(self).spec_running(),
            final(self).spec_status() == old(self).spec_status(),
            final(self).spec_next_log_id() == old(self).spec_next_log_id(),
    {
        self.shutdown_tx = Some(tx);
    }

    /// Signals the server to stop, once: true when a handle was held (it is
    /// used up), false when there was none.
    pub fn trigger_shutdown(&mut self) -> (sent: bool)
        ensures
            sent == old(self).spec_has_shutdown_handle(),
            final(self).spec_shutdown_handle() is None,
            final(self).spec_running() == old(self).spec_running(),
            final(self).spec_status() == old(self).spec_status(),
            final(self).spec_next_log_id() == old(self).spec_next_log_id(),
    {
        match self.shutdown_tx.take() {
            Some(tx) => {
                send_shutdown(tx);
                true
            },
            None => false,
        }
    }
}

/// A server that serves is active, and a running server serves: whatever
/// sequence of lifecycle calls led to the state, `is_running` implies
/// `is_active`, and status `Running` implies `is_running`.
pub proof fn lemma_running_is_active(s: &ServerStateManager)
    requires
        s.inv(),
    ensures
        s.spec_running() ==> s.spec_is_active(),
        s.spec_status() == ServerLifecycleStatus::Running ==> s.spec_running(),
{
}

/// The server counts as active while it is starting, running or stopping,
/// and not once it has stopped or failed.
pub proof fn lemma_active_statuses(s: &ServerStateManager)
    ensures
        s.spec_is_active() <==> (s.spec_status() == ServerLifecycleStatus::Starting || s.spec_status()
            == ServerLifecycleStatus::Running || s.spec_status() == ServerLifecycleStatus::Stopping),
        s.spec_status() == ServerLifecycleStatus::Stopped ==> !s.spec_is_active(),
        s.spec_status() == ServerLifecycleStatus::Error ==> !s.spec_is_active(),
{
}

/// The ids of the request log entries that a fresh server hands out, when
/// each call of `next_log_id` is recorded (`ids[i]` is what call `i`
/// returned, `counters[i]` the next id before it): they are 1, 2, ...,
/// in call order, so no id is lost or repeated (short of wrapping around).
pub proof fn lemma_log_ids_count_up(counters: Seq<u64>, ids: Seq<u64>)
    requires
        counters.len() == ids.len() + 1,
        ids.len() < u64::MAX,
        counters[0] == 1,
        forall|i: int|
            0 <= i < ids.len() ==> #[trigger] ids[i] == counters[i] && counters[i + 1]
                == vstd::wrapping::u64_specs::wrapping_add(ids[i], 1),
    ensures
        forall|i: int| 0 <= i < ids.len() ==> #[trigger] ids[i] == i + 1,
        forall|i: int, j: int| 0 <= i < j < ids.len() ==> #[trigger] ids[i] != #[trigger] ids[j],
    decreases ids.len(),
{
    if ids.len() > 0 {
        let n = ids.len() - 1;
        lemma_log_ids_count_up(counters.drop_last(), ids.drop_last());
        assert forall|i: int| 0 <= i < n implies ids[i] == i + 1 by {
            assert(ids.drop_last()[i] == ids[i]);
        }
        if n > 0 {
            assert(ids[n - 1] == n);
            assert(counters[n] == n + 1);
        }
        assert(ids[n] == n + 1);
    }
}

} // verus!
