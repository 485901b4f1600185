//! The requests of the core manager service and what it answers them.
//!
//! Each handler takes the registry and a request, updates the registry and
//! returns the reply together with what the caller has to do with the tasks of
//! the cores involved (start them, shut them down).
use crate::core_manager::{
    CoreManager, ManagerView, StrategySignal, StrategySignalWithCoreId,
};
use crate::text::text_concat;
use vstd::prelude::*;

verus! {

/// Start a core for a user, trading the given coins.
pub struct StartRequest {
    pub user_id: i64,
    pub coins: Vec<String>,
}

/// Replace a core of a user by a new one trading the given coins.
pub struct UpdateRequest {
    pub user_id: i64,
    pub core_id: i64,
    pub coins: Vec<String>,
}

/// Stop a core of a user.
pub struct StopRequest {
    pub user_id: i64,
    pub core_id: i64,
}

/// The answer to a start, update or stop request.
pub struct ActionResponse {
    pub user_id: i64,
    pub core_id: i64,
    pub is_done: bool,
    pub error_message: String,
}

/// A signal as it is streamed to a user.
pub struct SignalResponse {
    pub user_id: i64,
    pub core_id: i64,
    pub tactic_name: String,
    pub tactic_signal: String,
    pub timestamp: i64,
}

/// The reply to a start request; `registered` says that the user was not known
/// and has been registered on the way.
pub struct StartOutcome {
    pub registered: bool,
    pub response: ActionResponse,
}

/// The reply to an update request; `stopped` says that the old core left the
/// registry and its tasks have to be shut down.
pub struct UpdateOutcome {
    pub stopped: bool,
    pub response: ActionResponse,
}

/// The registry after a start request: an unknown user is registered first.
pub open spec fn after_start_request(m: ManagerView, user_id: i64, coins: Seq<Seq<char>>) -> ManagerView {
    if m.users.contains(user_id) {
        m.start(user_id, coins)
    } else {
        m.register(user_id).start(user_id, coins)
    }
}

/// The registry after an update request: the new core is started only when
/// the old one could be stopped.
pub open spec fn after_update_request(
    m: ManagerView,
    user_id: i64,
    core_id: i64,
    coins: Seq<Seq<char>>,
) -> ManagerView {
    if m.users.contains(user_id) && m.owns(user_id, core_id) {
        m.stop(user_id, core_id).start(user_id, coins)
    } else {
        m
    }
}

fn answer(user_id: i64, core_id: i64, is_done: bool, error_message: String) -> (r: ActionResponse)
    ensures
        r.user_id == user_id,
        r.core_id == core_id,
        r.is_done == is_done,
        r.error_message == error_message,
{
    ActionResponse { user_id, core_id, is_done, error_message }
}

/// Handles a start request: registers an unknown user, then starts the core.
pub fn handle_start_core(manager: &mut CoreManager, req: StartRequest) -> (out: StartOutcome)
    requires
        old(manager).wf(),
        old(manager)@.next_core_id < i64::MAX,
    ensures
        final(manager).wf(),
        final(manager)@ == after_start_request(old(manager)@, req.user_id, req.coins.deep_view()),
        out.registered == !old(manager)@.users.contains(req.user_id),
        out.response.user_id == req.user_id,
        out.response.is_done,
        out.response.core_id == old(manager)@.next_core_id,
        out.response.error_message@ == Seq::<char>::empty(),
        final(manager)@.users == old(manager)@.users.insert(req.user_id),
        final(manager)@.holds_core(req.user_id, old(manager)@.next_core_id, req.coins.deep_view()),
        forall|k: i64|
            #[trigger] old(manager)@.cores.contains_key(k) ==> final(manager)@.cores.contains_key(k)
                && final(manager)@.cores[k] == old(manager)@.cores[k],
        final(manager)@.cores.len() == old(manager)@.cores.len() + 1,
{
    proof {
        old(manager).lemma_view_wf();
        lemma_start_request_keeps_cores(old(manager)@, req.user_id, req.coins.deep_view());
    }
    let user_id = req.user_id;
    let registered = manager.get_user_cores(user_id).is_none();
    if registered {
        let _ = manager.register_user(user_id);
    }
    match manager.start_core(user_id, req.coins) {
        Ok(core_id) => StartOutcome {
            registered,
            response: answer(user_id, core_id, true, String::new()),
        },
        Err(e) => StartOutcome { registered, response: answer(user_id, -1, false, e) },
    }
}

/// Handles an update request: stops the old core and, when that succeeds,
/// starts a new one for the same user.
pub fn handle_update_core(manager: &mut CoreManager, req: UpdateRequest) -> (out: UpdateOutcome)
    requires
        old(manager).wf(),
        old(manager)@.owns(req.user_id, req.core_id) ==> old(manager)@.next_core_id < i64::MAX,
    ensures
        final(manager).wf(),
        final(manager)@ == after_update_request(
            old(manager)@,
            req.user_id,
            req.core_id,
            req.coins.deep_view(),
        ),
        out.stopped == (old(manager)@.users.contains(req.user_id) && old(manager)@.owns(
            req.user_id,
            req.core_id,
        )),
        out.response.user_id == req.user_id,
        out.response.is_done == out.stopped,
        out.stopped ==> out.response.core_id == old(manager)@.next_core_id
            && out.response.error_message@ == Seq::<char>::empty(),
        !out.stopped ==> out.response.core_id == req.core_id && out.response.error_message@
            == "Failed to stop old core: "@ + (if !old(manager)@.users.contains(req.user_id) {
            crate::core_manager::user_not_found_text(req.user_id)
        } else {
            crate::core_manager::core_not_found_text(req.core_id, req.user_id)
        }),
{
    let user_id = req.user_id;
    match manager.stop_core(user_id, req.core_id) {
        Ok(()) => {
            match manager.start_core(user_id, req.coins) {
                Ok(new_core_id) => UpdateOutcome {
                    stopped: true,
                    response: answer(user_id, new_core_id, true, String::new()),
                },
                Err(e) => {
                    let msg = text_concat("Failed to start new core: ", e.as_str());
                    UpdateOutcome { stopped: true, response: answer(user_id, -1, false, msg) }
                },
            }
        },
        Err(e) => {
            let msg = text_concat("Failed to stop old core: ", e.as_str());
            UpdateOutcome { stopped: false, response: answer(user_id, req.core_id, false, msg) }
        },
    }
}

/// The registry after a request to stream a user's signals: an unknown user is
/// registered; a known user keeps its cores.
pub open spec fn after_stream_request(m: ManagerView, user_id: i64) -> ManagerView {
    if m.users.contains(user_id) {
        m
    } else {
        m.register(user_id)
    }
}

/// Handles a request to stream the signals of `user_id`: registers the user
/// when it is not known yet, and leaves a known user and its cores as they
/// are. The result says whether the user was registered here; either way the
/// caller opens the channel that the stream reads.
pub fn handle_stream_signals(manager: &mut CoreManager, user_id: i64) -> (newly_registered: bool)
    requires
        old(manager).wf(),
    ensures
        final(manager).wf(),
        final(manager)@ == after_stream_request(old(manager)@, user_id),
        newly_registered == !old(manager)@.users.contains(user_id),
{
    let newly_registered = manager.get_user_cores(user_id).is_none();
    if newly_registered {
        let _ = manager.register_user(user_id);
    }
    newly_registered
}

/// Handles a stop request.
pub fn handle_stop_core(manager: &mut CoreManager, req: StopRequest) -> (r: ActionResponse)
    requires
        old(manager).wf(),
    ensures
        final(manager).wf(),
        final(manager)@ == old(manager)@.stop(req.user_id, req.core_id),
        r.user_id == req.user_id,
        r.core_id == req.core_id,
        r.is_done == (old(manager)@.users.contains(req.user_id) && old(manager)@.owns(
            req.user_id,
            req.core_id,
        )),
        r.is_done ==> r.error_message@ == Seq::<char>::empty(),
        !r.is_done ==> r.error_message@ == (if !old(manager)@.users.contains(req.user_id) {
            crate::core_manager::user_not_found_text(req.user_id)
        } else {
            crate::core_manager::core_not_found_text(req.core_id, req.user_id)
        }),
{
    match manager.stop_core(req.user_id, req.core_id) {
        Ok(()) => answer(req.user_id, req.core_id, true, String::new()),
        Err(e) => answer(req.user_id, req.core_id, false, e),
    }
}

/// The streamed form of a signal of core `signal.core_id`, sent to `user_id`
/// at `timestamp`.
pub fn signal_response(user_id: i64, signal: &StrategySignalWithCoreId, timestamp: i64) -> (r:
    SignalResponse)
    ensures
        r.user_id == user_id,
        r.core_id == signal.core_id,
        r.tactic_name@ == signal.signal.tactic_name@,
        r.tactic_signal@ == signal.signal.tactic_signal@,
        r.timestamp == timestamp,
{
    SignalResponse {
        user_id,
        core_id: signal.core_id,
        tactic_name: signal.signal.tactic_name.clone(),
        tactic_signal: signal.signal.tactic_signal.clone(),
        timestamp,
    }
}

/// What reaches the task that forwards the signals of one core.
pub enum ForwardEvent {
    /// The trading bot emitted a signal.
    Signal(StrategySignal),
    /// The core is being shut down, or its shutdown channel closed.
    Shutdown,
    /// The user's signal channel no longer takes signals.
    UserChannelClosed,
}

/// What the forwarding task does next.
pub enum ForwardAction {
    /// Send this signal to the user and keep going.
    Send(StrategySignalWithCoreId),
    /// End the task.
    Stop,
}

/// One step of the task that forwards the signals of core `core_id` to its
/// user: a signal is tagged with the core id and sent on; a shutdown or a
/// closed user channel ends the task.
pub fn forward_step(core_id: i64, event: ForwardEvent) -> (a: ForwardAction)
    ensures
        match event {
            ForwardEvent::Signal(s) => a == ForwardAction::Send(
                StrategySignalWithCoreId { core_id, signal: s },
            ),
            _ => a == ForwardAction::Stop,
        },
{
    match event {
        ForwardEvent::Signal(s) => ForwardAction::Send(StrategySignalWithCoreId::new(core_id, s)),
        ForwardEvent::Shutdown => ForwardAction::Stop,
        ForwardEvent::UserChannelClosed => ForwardAction::Stop,
    }
}


/// A successful update replaces the old core by a new one of the same user
/// trading the new coins, under a fresh id; the other cores stay, and so does
/// their number.
pub proof fn lemma_update_replaces_core(
    m: ManagerView,
    user_id: i64,
    core_id: i64,
    coins: Seq<Seq<char>>,
)
    requires
        m.wf(),
        m.users.contains(user_id),
        m.owns(user_id, core_id),
        m.next_core_id < i64::MAX,
    ensures
        !after_update_request(m, user_id, core_id, coins).owns(user_id, core_id),
        after_update_request(m, user_id, core_id, coins).holds_core(user_id, m.next_core_id, coins),
        forall|k: i64|
            m.cores.contains_key(k) && k != core_id ==> #[trigger] after_update_request(
                m,
                user_id,
                core_id,
                coins,
            ).cores.contains_key(k) && after_update_request(m, user_id, core_id, coins).cores[k]
                == m.cores[k],
        after_update_request(m, user_id, core_id, coins).cores.len() == m.cores.len(),
{
    let m1 = m.stop(user_id, core_id);
    assert(core_id < m.next_core_id);
    crate::core_manager::lemma_operations_keep_wf(m, user_id, core_id, coins);
    crate::core_manager::lemma_start_issues_fresh_id(m1, user_id, coins);
}

/// A start request always succeeds: afterwards the user is registered and
/// owns a new core trading the requested coins.
pub proof fn lemma_start_request_succeeds(m: ManagerView, user_id: i64, coins: Seq<Seq<char>>)
    requires
        m.wf(),
        m.next_core_id < i64::MAX,
    ensures
        after_start_request(m, user_id, coins).users.contains(user_id),
        after_start_request(m, user_id, coins).holds_core(user_id, m.next_core_id, coins),
{
}


/// Opening the signal stream of a user keeps the cores it already runs: a
/// core started by a start request is still there after the stream request,
/// and a stop request for it then succeeds and removes it.
pub proof fn lemma_start_stream_stop(m: ManagerView, user_id: i64, coins: Seq<Seq<char>>)
    requires
        m.wf(),
        m.next_core_id < i64::MAX,
    ensures
        ({
            let started = after_start_request(m, user_id, coins);
            let streaming = after_stream_request(started, user_id);
            &&& streaming == started
            &&& streaming.users.contains(user_id)
            &&& streaming.holds_core(user_id, m.next_core_id, coins)
            &&& !streaming.stop(user_id, m.next_core_id).owns(user_id, m.next_core_id)
        }),
{
}

/// A stream request never removes a core, and registers exactly the users
/// that were not known.
pub proof fn lemma_stream_keeps_cores(m: ManagerView, user_id: i64)
    requires
        m.wf(),
    ensures
        after_stream_request(m, user_id).users == m.users.insert(user_id),
        after_stream_request(m, user_id).cores == m.cores,
        after_stream_request(m, user_id).next_core_id == m.next_core_id,
{
    if !m.users.contains(user_id) {
        assert(m.cores_of(user_id) =~= Set::<i64>::empty());
        assert(m.cores.remove_keys(m.cores_of(user_id)) =~= m.cores);
    } else {
        assert(m.users.insert(user_id) =~= m.users);
    }
}


/// A start request keeps every core the registry held, whoever owns it, and
/// adds exactly one: the new core of the user, under the old counter value.
pub proof fn lemma_start_request_keeps_cores(m: ManagerView, user_id: i64, coins: Seq<Seq<char>>)
    requires
        m.wf(),
        m.next_core_id < i64::MAX,
    ensures
        after_start_request(m, user_id, coins).users == m.users.insert(user_id),
        after_start_request(m, user_id, coins).holds_core(user_id, m.next_core_id, coins),
        forall|k: i64|
            #[trigger] m.cores.contains_key(k) ==> after_start_request(m, user_id, coins).cores.contains_key(k)
                && after_start_request(m, user_id, coins).cores[k] == m.cores[k],
        after_start_request(m, user_id, coins).cores.len() == m.cores.len() + 1,
{
    crate::core_manager::lemma_operations_keep_wf(m, user_id, 0, coins);
    if m.users.contains(user_id) {
        assert(m.users.insert(user_id) =~= m.users);
        crate::core_manager::lemma_start_issues_fresh_id(m, user_id, coins);
    } else {
        assert(m.cores_of(user_id) =~= Set::<i64>::empty());
        assert(m.register(user_id).cores =~= m.cores);
        crate::core_manager::lemma_start_issues_fresh_id(m.register(user_id), user_id, coins);
    }
}

} // verus!
