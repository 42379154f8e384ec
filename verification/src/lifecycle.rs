//! How a node runs and stops.
use vstd::prelude::*;

use crate::leave::request_abort;
use crate::limits::should_backoff_after_accept_error;
use crate::limits::Platform;
use crate::limits::ACCEPT_ERROR_BACKOFF;
use crate::migration::slot_view;
use crate::migration::ActiveMigration;
use crate::migration::SlotView;
use crate::scan::contains_bytes;
use crate::scan::occurs;
use crate::text::text_bytes;

verus! {

/// What a node does after an event.
#[derive(Clone, Copy, Debug, PartialEq, Eq, Structural)]
pub enum ServerAction {
    /// Goes on accepting connections.
    Serve,
    /// Hands its entries over and leaves the cluster, while it goes on serving.
    Decommission,
    /// Stops accepting connections and ends.
    Shutdown,
}

/// How far a node is on its way to its end.
#[derive(Clone, Copy, Debug, PartialEq, Eq, Structural)]
pub struct ServerRun {
    pub decommission_started: bool,
    pub heartbeats_stopped: bool,
    pub shutting_down: bool,
}

/// The slot of a node that shuts down: a handoff is asked to stop, so that it
/// takes its marks back itself.
pub open spec fn aborted(slot: Option<SlotView>) -> Option<SlotView> {
    match slot {
        Some(active) => Some(SlotView { abort_requested: true, ..active }),
        None => None,
    }
}

impl ServerRun {
    /// Whether the heartbeats are stopped wherever they could undo a leave: one
    /// that comes after it would register the node again.
    pub open spec fn wf(self) -> bool {
        self.decommission_started || self.shutting_down ==> self.heartbeats_stopped
    }

    /// Whether a signal makes the node drain: the first one does, in a cluster and
    /// with time to drain.
    pub open spec fn drains(self, is_cluster: bool, drain_timeout: u128) -> bool {
        !self.decommission_started && !self.shutting_down && is_cluster && drain_timeout > 0
    }

    /// A node that starts.
    pub fn new() -> (run: ServerRun)
        ensures
            run == (ServerRun {
                decommission_started: false,
                heartbeats_stopped: false,
                shutting_down: false,
            }),
            run.wf(),
    {
        ServerRun { decommission_started: false, heartbeats_stopped: false, shutting_down: false }
    }

    fn shut_down(&mut self, slot: &mut Option<ActiveMigration>) -> (action: ServerAction)
        ensures
            action == ServerAction::Shutdown,
            *final(self) == (ServerRun {
                decommission_started: old(self).decommission_started,
                heartbeats_stopped: true,
                shutting_down: true,
            }),
            slot_view(*final(slot)) == aborted(slot_view(*old(slot))),
    {
        self.heartbeats_stopped = true;
        self.shutting_down = true;
        request_abort(slot);
        ServerAction::Shutdown
    }

    /// The node is told to end. A node of a cluster that has time to drain leaves
    /// the cluster first; told again while it does, it ends at once.
    pub fn on_signal(
        &mut self,
        is_cluster: bool,
        drain_timeout: u128,
        slot: &mut Option<ActiveMigration>,
    ) -> (action: ServerAction)
        requires
            old(self).wf(),
        ensures
            final(self).wf(),
            if old(self).drains(is_cluster, drain_timeout) {
                &&& action == ServerAction::Decommission
                &&& *final(self) == (ServerRun {
                    decommission_started: true,
                    heartbeats_stopped: true,
                    ..*old(self)
                })
                &&& *final(slot) == *old(slot)
            } else {
                &&& action == ServerAction::Shutdown
                &&& *final(self) == (ServerRun {
                    heartbeats_stopped: true,
                    shutting_down: true,
                    ..*old(self)
                })
                &&& slot_view(*final(slot)) == aborted(slot_view(*old(slot)))
            },
    {
        if !self.decommission_started && !self.shutting_down && is_cluster && drain_timeout > 0 {
            self.decommission_started = true;
            self.heartbeats_stopped = true;
            return ServerAction::Decommission;
        }
        self.shut_down(slot)
    }

    /// The node has left the cluster, or has given up on it.
    pub fn on_decommissioned(&mut self, slot: &mut Option<ActiveMigration>) -> (action: ServerAction)
        requires
            old(self).wf(),
        ensures
            final(self).wf(),
            if old(self).decommission_started {
                &&& action == ServerAction::Shutdown
                &&& *final(self) == (ServerRun {
                    heartbeats_stopped: true,
                    shutting_down: true,
                    ..*old(self)
                })
                &&& slot_view(*final(slot)) == aborted(slot_view(*old(slot)))
            } else {
                &&& action == ServerAction::Serve
                &&& *final(self) == *old(self)
                &&& *final(slot) == *old(slot)
            },
    {
        if !self.decommission_started {
            return ServerAction::Serve;
        }
        self.shut_down(slot)
    }
}

/// How long to wait after a connection could not be accepted. The node goes on
/// in any case; it waits where the next attempt would fail at once.
pub fn pause_after_accept_error(platform: Platform, os_error: Option<i32>) -> (pause: u128)
    ensures
        pause == if platform == Platform::Other || os_error == Some(23i32) || os_error == Some(
            24i32,
        ) {
            ACCEPT_ERROR_BACKOFF
        } else {
            0
        },
{
    if should_backoff_after_accept_error(platform, os_error) {
        ACCEPT_ERROR_BACKOFF
    } else {
        0
    }
}

/// What a node that shuts down does with the tasks that are left.
#[derive(Clone, Copy, Debug, PartialEq, Eq, Structural)]
pub enum TaskStep {
    /// Waits for the next one to end, or for a task that was handed over last.
    Await,
    /// Ends them.
    AbortAll,
    Done,
}

/// Goes on with a shutdown.
pub fn shutdown_step(tasks: usize, timed_out: bool) -> (step: TaskStep)
    ensures
        step == if tasks == 0 {
            TaskStep::Done
        } else if timed_out {
            TaskStep::AbortAll
        } else {
            TaskStep::Await
        },
{
    if tasks == 0 {
        TaskStep::Done
    } else if timed_out {
        TaskStep::AbortAll
    } else {
        TaskStep::Await
    }
}

/// Whether an error only says that a peer closed an encrypted connection without
/// saying so, which is how a connection ends as a rule.
pub fn is_ordinary_close(error: &str) -> (ordinary: bool)
    ensures
        ordinary == occurs(text_bytes("close_notify"@), text_bytes(error@)),
{
    contains_bytes(error.as_bytes(), "close_notify".as_bytes())
}

/// A node drains at most once, only in a cluster, and only with time to do so;
/// once it is shutting down, nothing makes it drain.
pub proof fn law_node_drains_once(run: ServerRun, is_cluster: bool, drain_timeout: u128)
    ensures
        run.drains(is_cluster, drain_timeout) <==> is_cluster && drain_timeout > 0
            && !run.decommission_started && !run.shutting_down,
        (ServerRun { decommission_started: true, ..run }).drains(is_cluster, drain_timeout)
            == false,
        (ServerRun { shutting_down: true, ..run }).drains(is_cluster, drain_timeout) == false,
        !run.drains(false, drain_timeout),
        !run.drains(is_cluster, 0),
{
}

/// A shutdown asks a running handoff to stop and changes nothing else of it: the
/// handoff takes its marks back itself.
pub proof fn law_shutdown_only_asks_the_handoff_to_stop(slot: SlotView)
    ensures
        aborted(None) is None,
        aborted(Some(slot)) matches Some(after) && after.abort_requested && after.joining_name
            == slot.joining_name && after.joining_addr == slot.joining_addr && after.joining_token
            == slot.joining_token && after.after_ring == slot.after_ring && after.replication
            == slot.replication && after.completed_at == slot.completed_at
            && after.forwarding_grace == slot.forwarding_grace && after.acked_entries
            == slot.acked_entries && after.marked_keys == slot.marked_keys && after.confirmed
            == slot.confirmed && after.pre_completion_ring == slot.pre_completion_ring
            && after.pending_clears == slot.pending_clears,
{
}

/// Wherever a leave or a shutdown has begun, the heartbeats have ended.
pub proof fn law_no_heartbeat_after_a_leave(run: ServerRun)
    requires
        run.wf(),
        !run.heartbeats_stopped,
    ensures
        !run.decommission_started,
        !run.shutting_down,
{
}

/// A shutdown is done when no task is left, and ends those that are left when
/// the time is over, not before.
pub proof fn law_shutdown_waits_for_its_tasks(tasks: usize, timed_out: bool, step: TaskStep)
    requires
        call_ensures(shutdown_step, (tasks, timed_out), step),
    ensures
        step is Done <==> tasks == 0,
        step is AbortAll <==> tasks > 0 && timed_out,
        step is Await <==> tasks > 0 && !timed_out,
{
}

/// The first signal makes a node of a cluster with time to drain leave, and any
/// other ends it; in any case the heartbeats end, and once it shuts down it
/// stays at that.
pub proof fn law_signals_end_a_node(
    run: &mut ServerRun,
    is_cluster: bool,
    drain_timeout: u128,
    slot: &mut Option<ActiveMigration>,
    action: ServerAction,
)
    requires
        old(run).wf(),
        call_ensures(ServerRun::on_signal, (run, is_cluster, drain_timeout, slot), action),
    ensures
        final(run).heartbeats_stopped,
        action is Decommission <==> is_cluster && drain_timeout > 0
            && !old(run).decommission_started && !old(run).shutting_down,
        action is Decommission ==> final(run).decommission_started && *final(slot) == *old(slot),
        action is Shutdown <==> !(action is Decommission),
        action is Shutdown ==> final(run).shutting_down && (slot_view(*final(slot)) matches Some(
            after,
        ) ==> after.abort_requested),
        old(run).shutting_down ==> final(run).shutting_down,
{
}

} // verus!
