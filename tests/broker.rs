use stream_replay::broker::{Application, GlobalBroker};

fn chars(s: &str) -> Vec<char> {
    s.chars().collect()
}

#[test]
fn no_orchestrator_registers_nothing() {
    let mut b = GlobalBroker::new(None);
    assert_eq!(b.add(0xC0, &chars(""), 1), None);
    assert!(b.apps.iter().all(|c| c.is_empty()));
}

#[test]
fn apps_join_their_access_category() {
    let mut b = GlobalBroker::new(Some(String::from("wmm")));
    assert_eq!(b.add(0xC0, &chars("guarded,high"), 1), Some(0));
    assert_eq!(b.add(0x00, &chars("low"), 2), Some(2));
    assert_eq!(b.add(0x20, &chars(""), 3), Some(3));
    assert_eq!(b.add(0x80, &chars("x guarded,"), 4), Some(1));
    assert_eq!(b.add(0xE0, &chars("guarded"), 5), Some(0));
    assert_eq!(b.apps[0], vec![Application { id: 1, guarded: true }, Application { id: 5, guarded: false }]);
    assert_eq!(b.apps[1], vec![Application { id: 4, guarded: true }]);
    assert_eq!(b.apps[2], vec![Application { id: 2, guarded: false }]);
    assert_eq!(b.apps[3], vec![Application { id: 3, guarded: false }]);
}

#[test]
fn closed_apps_are_dropped_in_order() {
    let mut b = GlobalBroker::new(Some(String::from("wmm")));
    for id in 0..4 {
        b.add(0x00, &chars(""), id);
    }
    b.retain_open(2, &vec![true, false, true, false]);
    let ids: Vec<usize> = b.apps[2].iter().map(|a| a.id).collect();
    assert_eq!(ids, vec![0, 2]);
    assert!(b.apps[0].is_empty());
}
