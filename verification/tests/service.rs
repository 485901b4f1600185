use bot_core::core_manager::{CoreManager, StrategySignal, StrategySignalWithCoreId};
use bot_core::service::{
    forward_step, handle_start_core, handle_stop_core, handle_stream_signals, handle_update_core,
    signal_response,
    ForwardAction, ForwardEvent, StartRequest, StopRequest, UpdateRequest,
};

fn coins(names: &[&str]) -> Vec<String> {
    names.iter().map(|s| s.to_string()).collect()
}

#[test]
fn start_request_registers_an_unknown_user() {
    let mut m = CoreManager::new();
    let out = handle_start_core(&mut m, StartRequest { user_id: 1, coins: coins(&["BTCUSDT", "ETHUSDT"]) });
    assert!(out.registered);
    assert!(out.response.is_done);
    assert_eq!(out.response.user_id, 1);
    assert_eq!(out.response.core_id, 1);
    assert_eq!(out.response.error_message, "");
    let out2 = handle_start_core(&mut m, StartRequest { user_id: 1, coins: coins(&["XRPUSDT"]) });
    assert!(!out2.registered);
    assert_eq!(out2.response.core_id, 2);
    assert_eq!(m.total_cores(), 2);
}

#[test]
fn update_replaces_the_core() {
    let mut m = CoreManager::new();
    handle_start_core(&mut m, StartRequest { user_id: 1, coins: coins(&["A"]) });
    let out = handle_update_core(&mut m, UpdateRequest { user_id: 1, core_id: 1, coins: coins(&["B"]) });
    assert!(out.stopped);
    assert!(out.response.is_done);
    assert_eq!(out.response.core_id, 2);
    assert_eq!(out.response.error_message, "");
    assert_eq!(m.get_user_cores(1), Some(vec![(2, coins(&["B"]))]));
}

#[test]
fn update_of_unknown_core_fails() {
    let mut m = CoreManager::new();
    let out = handle_update_core(&mut m, UpdateRequest { user_id: 4, core_id: 9, coins: coins(&["B"]) });
    assert!(!out.stopped);
    assert!(!out.response.is_done);
    assert_eq!(out.response.core_id, 9);
    assert_eq!(out.response.error_message, "Failed to stop old core: User 4 not found");
    handle_start_core(&mut m, StartRequest { user_id: 4, coins: coins(&["A"]) });
    let out = handle_update_core(&mut m, UpdateRequest { user_id: 4, core_id: 9, coins: coins(&["B"]) });
    assert_eq!(out.response.error_message, "Failed to stop old core: Core 9 not found for user 4");
    assert_eq!(m.next_core_id(), 2);
}

#[test]
fn stop_request_answers() {
    let mut m = CoreManager::new();
    let r = handle_stop_core(&mut m, StopRequest { user_id: 2, core_id: 1 });
    assert!(!r.is_done);
    assert_eq!(r.error_message, "User 2 not found");
    handle_start_core(&mut m, StartRequest { user_id: 2, coins: coins(&["A"]) });
    let r = handle_stop_core(&mut m, StopRequest { user_id: 2, core_id: 1 });
    assert!(r.is_done);
    assert_eq!((r.user_id, r.core_id), (2, 1));
    assert_eq!(r.error_message, "");
    let r = handle_stop_core(&mut m, StopRequest { user_id: 2, core_id: 1 });
    assert_eq!(r.error_message, "Core 1 not found for user 2");
}

#[test]
fn signal_response_carries_the_signal() {
    let s = StrategySignalWithCoreId::new(
        3,
        StrategySignal { tactic_name: "mean_reversion".to_string(), tactic_signal: "sell".to_string() },
    );
    let r = signal_response(8, &s, 1_700_000_000);
    assert_eq!((r.user_id, r.core_id, r.timestamp), (8, 3, 1_700_000_000));
    assert_eq!(r.tactic_name, "mean_reversion");
    assert_eq!(r.tactic_signal, "sell");
}

#[test]
fn forwarding_steps() {
    let s = StrategySignal { tactic_name: "t".to_string(), tactic_signal: "s".to_string() };
    match forward_step(5, ForwardEvent::Signal(s)) {
        ForwardAction::Send(w) => {
            assert_eq!(w.core_id, 5);
            assert_eq!(w.signal.tactic_name, "t");
        }
        ForwardAction::Stop => panic!("a signal is sent on"),
    }
    assert!(matches!(forward_step(5, ForwardEvent::Shutdown), ForwardAction::Stop));
    assert!(matches!(forward_step(5, ForwardEvent::UserChannelClosed), ForwardAction::Stop));
}

#[test]
fn stream_after_start_keeps_the_core() {
    let mut m = CoreManager::new();
    let out = handle_start_core(&mut m, StartRequest { user_id: 1, coins: coins(&["BTCUSDT", "ETHUSDT"]) });
    let c = out.response.core_id;
    assert!(!handle_stream_signals(&mut m, 1));
    assert_eq!(m.get_user_cores(1), Some(vec![(c, coins(&["BTCUSDT", "ETHUSDT"]))]));
    let r = handle_stop_core(&mut m, StopRequest { user_id: 1, core_id: c });
    assert!(r.is_done);
    assert_eq!(r.error_message, "");
}

#[test]
fn stream_registers_an_unknown_user() {
    let mut m = CoreManager::new();
    assert!(handle_stream_signals(&mut m, 9));
    assert_eq!(m.get_user_cores(9), Some(vec![]));
    assert!(!handle_stream_signals(&mut m, 9));
    assert_eq!(m.next_core_id(), 1);
}
