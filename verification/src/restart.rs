//! The restart plan: the audio stack is restarted in one shot when that
//! works, and otherwise by a fixed fallback sequence — bounce the socket,
//! start the main service, bring the socket back, restart the session
//! manager. Each step names the external action to perform; the caller
//! performs it and reports whether it succeeded.

use vstd::prelude::*;

verus! {

/// Where the restart plan stands. Every state but `Done` names the
/// action the caller must perform next.
#[derive(Clone, Copy, Debug, PartialEq, Eq, Structural)]
pub enum RestartState {
    /// Restart the whole stack — the main service, its pulse shim and
    /// the session manager — in one invocation.
    TryRestartAll,
    /// Fallback: stop the socket; whether that works is immaterial.
    StopSocket,
    /// Fallback: start the main service; this step must succeed.
    StartPipewire,
    /// Fallback: bring the socket back; whether that works is
    /// immaterial.
    StartSocket { pipewire_ok: bool },
    /// Fallback: restart the session manager; this step must succeed.
    RestartWireplumber { pipewire_ok: bool },
    /// The plan is finished, successfully or not.
    Done { ok: bool },
}

/// One step of the restart plan: from the state whose action was just
/// performed and the success of that action to the next state.
pub open spec fn spec_restart_step(s: RestartState, action_ok: bool) -> RestartState {
    match s {
        RestartState::TryRestartAll => if action_ok {
            RestartState::Done { ok: true }
        } else {
            RestartState::StopSocket
        },
        RestartState::StopSocket => RestartState::StartPipewire,
        RestartState::StartPipewire => RestartState::StartSocket { pipewire_ok: action_ok },
        RestartState::StartSocket { pipewire_ok } => RestartState::RestartWireplumber {
            pipewire_ok,
        },
        RestartState::RestartWireplumber { pipewire_ok } => RestartState::Done {
            ok: pipewire_ok && action_ok,
        },
        RestartState::Done { ok } => RestartState::Done { ok },
    }
}

/// Advance the restart plan by one performed action.
pub fn restart_step(s: RestartState, action_ok: bool) -> (r: RestartState)
    ensures
        r == spec_restart_step(s, action_ok),
{
    match s {
        RestartState::TryRestartAll => if action_ok {
            RestartState::Done { ok: true }
        } else {
            RestartState::StopSocket
        },
        RestartState::StopSocket => RestartState::StartPipewire,
        RestartState::StartPipewire => RestartState::StartSocket { pipewire_ok: action_ok },
        RestartState::StartSocket { pipewire_ok } => RestartState::RestartWireplumber {
            pipewire_ok,
        },
        RestartState::RestartWireplumber { pipewire_ok } => RestartState::Done {
            ok: pipewire_ok && action_ok,
        },
        RestartState::Done { ok } => RestartState::Done { ok },
    }
}

/// The plan after the actions whose outcomes `events` lists, starting
/// from `s`.
pub open spec fn run_plan(s: RestartState, events: Seq<bool>) -> RestartState
    decreases events.len(),
{
    if events.len() == 0 {
        s
    } else {
        run_plan(spec_restart_step(s, events[0]), events.drop_first())
    }
}

/// A finished plan stays finished, whatever else is reported.
pub proof fn lemma_done_is_final(ok: bool, events: Seq<bool>)
    ensures
        run_plan(RestartState::Done { ok }, events) == (RestartState::Done { ok }),
    decreases events.len(),
{
    if events.len() > 0 {
        lemma_done_is_final(ok, events.drop_first());
    }
}

/// The restart policy in one statement: over any five or more reported
/// outcomes, the plan succeeds exactly when the one-shot restart did, or
/// both required fallback steps — starting the main service and
/// restarting the session manager — did.
pub proof fn lemma_restart_policy(events: Seq<bool>)
    requires
        events.len() >= 5,
    ensures
        run_plan(RestartState::TryRestartAll, events) == (RestartState::Done {
            ok: events[0] || (events[2] && events[4]),
        }),
{
    let e = events;
    if e[0] {
        lemma_done_is_final(true, e.drop_first());
    } else {
        let s1 = spec_restart_step(RestartState::TryRestartAll, e[0]);
        let e1 = e.drop_first();
        let e2 = e1.drop_first();
        let e3 = e2.drop_first();
        let e4 = e3.drop_first();
        let e5 = e4.drop_first();
        assert(e1.len() >= 4 && e2.len() >= 3 && e3.len() >= 2 && e4.len() >= 1);
        assert(e1[0] == e[1] && e2[0] == e[2] && e3[0] == e[3] && e4[0] == e[4]);
        assert(run_plan(RestartState::TryRestartAll, e) == run_plan(RestartState::StopSocket, e1));
        assert(run_plan(RestartState::StopSocket, e1) == run_plan(RestartState::StartPipewire, e2));
        assert(run_plan(RestartState::StartPipewire, e2) == run_plan(
            RestartState::StartSocket { pipewire_ok: e[2] },
            e3,
        ));
        assert(run_plan(RestartState::StartSocket { pipewire_ok: e[2] }, e3) == run_plan(
            RestartState::RestartWireplumber { pipewire_ok: e[2] },
            e4,
        ));
        assert(run_plan(RestartState::RestartWireplumber { pipewire_ok: e[2] }, e4) == run_plan(
            RestartState::Done { ok: e[2] && e[4] },
            e5,
        ));
        lemma_done_is_final(e[2] && e[4], e5);
    }
}

} // verus!
