use bot_core::core_manager::{CoreManager, StrategySignal, StrategySignalWithCoreId};

fn coins(names: &[&str]) -> Vec<String> {
    names.iter().map(|s| s.to_string()).collect()
}

fn sorted(mut v: Vec<i64>) -> Vec<i64> {
    v.sort();
    v
}

#[test]
fn new_manager_is_empty() {
    let m = CoreManager::new();
    assert_eq!(m.total_cores(), 0);
    assert_eq!(m.next_core_id(), 1);
    assert!(m.get_user_cores(1).is_none());
}

#[test]
fn start_for_unknown_user_fails_and_uses_an_id() {
    let mut m = CoreManager::new();
    assert_eq!(m.start_core(7, coins(&["BTCUSDT"])), Err("User 7 not registered".to_string()));
    assert_eq!(m.next_core_id(), 2);
    assert_eq!(m.total_cores(), 0);
    assert_eq!(m.start_core(-3, vec![]), Err("User -3 not registered".to_string()));
    assert_eq!(m.next_core_id(), 3);
}

#[test]
fn start_then_lookup_gives_the_core() {
    let mut m = CoreManager::new();
    assert!(m.register_user(5).is_none());
    let id = m.start_core(5, coins(&["BTCUSDT", "ETHUSDT"])).unwrap();
    assert_eq!(id, 1);
    assert_eq!(m.get_user_cores(5), Some(vec![(1, coins(&["BTCUSDT", "ETHUSDT"]))]));
    assert_eq!(m.total_cores(), 1);
}

#[test]
fn ids_are_fresh_across_users() {
    let mut m = CoreManager::new();
    m.register_user(1);
    m.register_user(2);
    let a = m.start_core(1, coins(&["A"])).unwrap();
    let b = m.start_core(2, coins(&["B"])).unwrap();
    let c = m.start_core(1, coins(&["C"])).unwrap();
    assert_eq!((a, b, c), (1, 2, 3));
    m.stop_core(2, b).unwrap();
    let d = m.start_core(2, coins(&["D"])).unwrap();
    assert_eq!(d, 4);
    assert_eq!(m.total_cores(), 3);
}

#[test]
fn stop_removes_the_core_once() {
    let mut m = CoreManager::new();
    m.register_user(5);
    let id = m.start_core(5, coins(&["BTCUSDT"])).unwrap();
    assert_eq!(m.stop_core(5, id), Ok(()));
    assert_eq!(m.total_cores(), 0);
    assert_eq!(m.stop_core(5, id), Err("Core 1 not found for user 5".to_string()));
    assert_eq!(m.get_user_cores(5), Some(vec![]));
}

#[test]
fn stop_errors() {
    let mut m = CoreManager::new();
    assert_eq!(m.stop_core(9, 1), Err("User 9 not found".to_string()));
    m.register_user(1);
    m.register_user(2);
    let id = m.start_core(1, coins(&["X"])).unwrap();
    assert_eq!(m.stop_core(2, id), Err("Core 1 not found for user 2".to_string()));
    assert_eq!(m.total_cores(), 1);
}

#[test]
fn registering_again_drops_the_cores() {
    let mut m = CoreManager::new();
    assert_eq!(m.register_user(3), None);
    let a = m.start_core(3, coins(&["A"])).unwrap();
    let b = m.start_core(3, coins(&["B"])).unwrap();
    m.register_user(4);
    let c = m.start_core(4, coins(&["C"])).unwrap();
    let dropped = m.register_user(3).unwrap();
    assert_eq!(sorted(dropped), vec![a, b]);
    assert_eq!(m.get_user_cores(3), Some(vec![]));
    assert_eq!(m.get_user_cores(4), Some(vec![(c, coins(&["C"]))]));
    assert_eq!(m.register_user(3), Some(vec![]));
}

#[test]
fn stop_user_cores_and_unregister() {
    let mut m = CoreManager::new();
    assert_eq!(m.stop_user_cores(1), Err("User 1 not found".to_string()));
    assert_eq!(m.unregister_user(1), Err("User 1 not found".to_string()));
    m.register_user(1);
    m.register_user(2);
    let a = m.start_core(1, coins(&["A"])).unwrap();
    let b = m.start_core(1, coins(&["B"])).unwrap();
    let c = m.start_core(2, coins(&["C"])).unwrap();
    assert_eq!(sorted(m.stop_user_cores(1).unwrap()), vec![a, b]);
    assert_eq!(m.get_user_cores(1), Some(vec![]));
    assert_eq!(m.total_cores(), 1);
    assert_eq!(m.unregister_user(2).unwrap(), vec![c]);
    assert!(m.get_user_cores(2).is_none());
    assert_eq!(m.total_cores(), 0);
    assert_eq!(m.start_core(2, coins(&["D"])), Err("User 2 not registered".to_string()));
}

#[test]
fn user_cores_list_every_core_once() {
    let mut m = CoreManager::new();
    m.register_user(1);
    for i in 0..5 {
        m.start_core(1, coins(&[&format!("C{}", i)])).unwrap();
    }
    let mut list = m.get_user_cores(1).unwrap();
    list.sort();
    let expected: Vec<(i64, Vec<String>)> =
        (0..5).map(|i| (i as i64 + 1, coins(&[&format!("C{}", i)]))).collect();
    assert_eq!(list, expected);
    assert_eq!(m.total_cores(), 5);
}

#[test]
fn signal_is_tagged_with_its_core() {
    let s = StrategySignal { tactic_name: "momentum".to_string(), tactic_signal: "buy".to_string() };
    let t = StrategySignalWithCoreId::new(12, s);
    assert_eq!(t.core_id, 12);
    assert_eq!(t.signal.tactic_name, "momentum");
    assert_eq!(t.signal.tactic_signal, "buy");
}

#[test]
fn ids_increase_over_a_session() {
    let mut m = CoreManager::new();
    m.register_user(1);
    let mut last = 0;
    for round in 0..4 {
        let id = m.start_core(1, coins(&["A"])).unwrap();
        assert!(id > last);
        last = id;
        if round % 2 == 0 {
            m.stop_core(1, id).unwrap();
        }
        assert!(m.start_core(2, vec![]).is_err());
    }
    m.unregister_user(1).unwrap();
    m.register_user(1);
    let id = m.start_core(1, coins(&["B"])).unwrap();
    assert!(id > last);
}

#[test]
fn a_session_leaves_no_trace() {
    let mut m = CoreManager::new();
    m.register_user(1);
    let kept = m.start_core(1, coins(&["K"])).unwrap();
    let before_total = m.total_cores();
    m.register_user(2);
    let a = m.start_core(2, coins(&["A"])).unwrap();
    m.start_core(2, coins(&["B"])).unwrap();
    m.stop_core(2, a).unwrap();
    m.unregister_user(2).unwrap();
    assert!(m.get_user_cores(2).is_none());
    assert_eq!(m.get_user_cores(1), Some(vec![(kept, coins(&["K"]))]));
    assert_eq!(m.total_cores(), before_total);
}

#[test]
fn total_is_the_sum_over_users() {
    let mut m = CoreManager::new();
    for u in 1..4 {
        m.register_user(u);
        for _ in 0..u {
            m.start_core(u, coins(&["X"])).unwrap();
        }
    }
    let sum: usize = (1..4).map(|u| m.get_user_cores(u).unwrap().len()).sum();
    assert_eq!(m.total_cores(), sum);
    assert_eq!(sum, 6);
}
