use kfsm::{KFSMError, KFSMOptions, KFSMTransition, KFSM};

fn rule(from: &[&str], to: &str) -> KFSMTransition {
    let labels: Vec<String> = from.iter().map(|s| s.to_string()).collect();
    KFSMTransition { from: labels.into_boxed_slice(), to: to.to_string() }
}

fn log_of(k: &KFSM) -> Vec<(String, String)> {
    k.history.iter().map(|h| (h.from.clone(), h.to.clone())).collect()
}

fn pair(a: &str, b: &str) -> (String, String) {
    (a.to_string(), b.to_string())
}

#[test]
fn test_new() {
    let ab: KFSMTransition = KFSMTransition { from: Box::from(["A".to_string()]), to: "B".to_string() };
    let t: Box<[KFSMTransition]> = Box::from([ab]);
    let k = KFSM::new("A".to_string(), t, None);
    assert_eq!(k.initial, "A".to_string());
    assert_eq!(k.current, "A".to_string());
    assert_eq!(k.history.len(), 0);
    assert_eq!(k.options.max_history, -1)
}

#[test]
fn test_update() {
    let ab: KFSMTransition = KFSMTransition { from: Box::from(["A".to_string()]), to: "B".to_string() };
    let bc: KFSMTransition = KFSMTransition { from: Box::from(["B".to_string()]), to: "C".to_string() };
    let t: Box<[KFSMTransition]> = Box::from([ab, bc]);
    let mut k = KFSM::new("A".to_string(), t, None);
    assert_eq!(k.initial, "A".to_string());
    assert_eq!(k.current, "A".to_string());
    assert_eq!(k.history.len(), 0);
    assert_eq!(k.options.max_history, -1);
    let _ = k.update("B".to_string());
    assert_eq!(k.current, "B".to_string())
}

#[test]
fn new_keeps_given_options() {
    let k = KFSM::new("S".to_string(), Box::from([rule(&["S"], "T")]), Some(KFSMOptions { max_history: 5 }));
    assert_eq!(k.options.max_history, 5);
    assert_eq!(k.initial, "S");
    assert_eq!(k.current, "S");
    assert!(k.history.is_empty());
    assert_eq!(k.transitions.len(), 1);
}

#[test]
fn successful_transition_logs_one_entry() {
    let mut k = KFSM::new("A".to_string(), Box::from([rule(&["A"], "B")]), None);
    let r = k.update("B".to_string());
    assert!(r.is_ok());
    assert_eq!(r.unwrap().current, "B");
    assert_eq!(k.current, "B");
    assert_eq!(log_of(&k), vec![pair("A", "B")]);
}

#[test]
fn refused_update_leaves_machine_untouched() {
    let mut k = KFSM::new("A".to_string(), Box::from([rule(&["A"], "B")]), None);
    let r = k.update("C".to_string());
    assert_eq!(r.err(), Some(KFSMError::NoMatchingTransition));
    assert_eq!(k.current, "A");
    assert!(k.history.is_empty());
}

#[test]
fn refused_update_keeps_existing_log() {
    let mut k = KFSM::new("A".to_string(), Box::from([rule(&["A"], "B"), rule(&["B"], "C")]), None);
    assert!(k.update("B".to_string()).is_ok());
    assert_eq!(k.update("A".to_string()).err(), Some(KFSMError::NoMatchingTransition));
    assert_eq!(k.current, "B");
    assert_eq!(log_of(&k), vec![pair("A", "B")]);
}

#[test]
fn empty_table_refuses_every_update() {
    let mut k = KFSM::new("A".to_string(), Box::from([]), None);
    assert_eq!(k.update("A".to_string()).err(), Some(KFSMError::NoMatchingTransition));
    assert_eq!(k.current, "A");
    assert!(k.history.is_empty());
}

#[test]
fn capped_log_keeps_two_newest() {
    let table = Box::from([rule(&["A"], "B"), rule(&["B"], "A")]);
    let mut k = KFSM::new("A".to_string(), table, Some(KFSMOptions { max_history: 2 }));
    assert!(k.update("B".to_string()).is_ok());
    assert!(k.update("A".to_string()).is_ok());
    assert!(k.update("B".to_string()).is_ok());
    assert_eq!(k.history.len(), 2);
    assert_eq!(log_of(&k), vec![pair("B", "A"), pair("A", "B")]);
    assert!(k.update("A".to_string()).is_ok());
    assert_eq!(log_of(&k), vec![pair("A", "B"), pair("B", "A")]);
    assert_eq!(k.current, "A");
}

#[test]
fn cap_of_one_keeps_last_entry() {
    let table = Box::from([rule(&["A"], "B"), rule(&["B"], "C")]);
    let mut k = KFSM::new("A".to_string(), table, Some(KFSMOptions { max_history: 1 }));
    assert!(k.update("B".to_string()).is_ok());
    assert!(k.update("C".to_string()).is_ok());
    assert_eq!(log_of(&k), vec![pair("B", "C")]);
}

#[test]
fn cap_of_zero_keeps_only_the_latest_entry() {
    let table = Box::from([rule(&["A"], "B"), rule(&["B"], "C")]);
    let mut k = KFSM::new("A".to_string(), table, Some(KFSMOptions { max_history: 0 }));
    assert!(k.update("B".to_string()).is_ok());
    assert_eq!(log_of(&k), vec![pair("A", "B")]);
    assert!(k.update("C".to_string()).is_ok());
    assert_eq!(log_of(&k), vec![pair("B", "C")]);
}

#[test]
fn uncapped_log_grows_by_one_per_transition() {
    let table = Box::from([rule(&["A"], "B"), rule(&["B"], "A")]);
    let mut k = KFSM::new("A".to_string(), table, Some(KFSMOptions { max_history: -1 }));
    let n: usize = 7;
    for i in 0..n {
        let next = if i % 2 == 0 { "B" } else { "A" };
        assert!(k.update(next.to_string()).is_ok());
    }
    assert_eq!(k.history.len(), n);
    assert_eq!(k.current, "B");
}

#[test]
fn any_negative_cap_is_uncapped() {
    let table = Box::from([rule(&["A"], "A")]);
    let mut k = KFSM::new("A".to_string(), table, Some(KFSMOptions { max_history: -9 }));
    for _ in 0..4 {
        assert!(k.update("A".to_string()).is_ok());
    }
    assert_eq!(log_of(&k), vec![pair("A", "A"); 4]);
}

#[test]
fn every_matching_transition_is_carried_out() {
    let table = Box::from([rule(&["A"], "B"), rule(&["A", "X"], "B")]);
    let mut k = KFSM::new("A".to_string(), table, None);
    let before = k.history.len();
    assert!(k.update("B".to_string()).is_ok());
    assert_eq!(k.history.len(), before + 2);
    assert_eq!(k.current, "B");
    assert_eq!(log_of(&k), vec![pair("A", "B"), pair("B", "B")]);
}

#[test]
fn non_matching_rules_between_matches_are_skipped() {
    let table = Box::from([rule(&["A"], "B"), rule(&["A"], "C"), rule(&["Q", "A"], "B")]);
    let mut k = KFSM::new("A".to_string(), table, None);
    assert!(k.update("B".to_string()).is_ok());
    assert_eq!(k.history.len(), 2);
    assert_eq!(k.current, "B");
}

#[test]
fn table_is_unchanged_by_updates() {
    let table = Box::from([rule(&["A", "C"], "B"), rule(&["B"], "C")]);
    let mut k = KFSM::new("A".to_string(), table, Some(KFSMOptions { max_history: 1 }));
    let snapshot: Vec<(Vec<String>, String)> =
        k.transitions.iter().map(|t| (t.from.to_vec(), t.to.clone())).collect();
    for next in ["B", "C", "X", "B", "A"] {
        let _ = k.update(next.to_string());
    }
    let after: Vec<(Vec<String>, String)> =
        k.transitions.iter().map(|t| (t.from.to_vec(), t.to.clone())).collect();
    assert_eq!(snapshot, after);
    assert_eq!(k.initial, "A");
    assert_eq!(k.options.max_history, 1);
}

#[test]
fn update_result_refers_to_the_machine() {
    let mut k = KFSM::new("A".to_string(), Box::from([rule(&["A"], "B"), rule(&["B"], "C")]), None);
    let r = k.update("B".to_string()).unwrap();
    assert!(r.update("C".to_string()).is_ok());
    assert_eq!(k.current, "C");
    assert_eq!(log_of(&k), vec![pair("A", "B"), pair("B", "C")]);
}
