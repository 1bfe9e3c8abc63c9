use pg_deltax::scan::plan_profile::{Profile, MAX_TIME};

#[test]
fn only_the_outermost_planning_is_profiled() {
    let mut p = Profile::new();
    assert!(p.begin(true, 1_000));
    assert!(!p.begin(true, 2_000));
    p.record("inner", 5);
    assert!(p.finish(3_000).is_none());
    p.record("inner", 7);
    p.count("outer");
    let r = p.finish(9_000).unwrap();
    assert_eq!(r.total, 8_000);
    let lines: Vec<(String, u64, u128)> =
        r.buckets.iter().map(|b| (b.label.clone(), b.calls, b.total)).collect();
    assert_eq!(lines, vec![("inner".to_string(), 2, 12), ("outer".to_string(), 1, 0)]);
    assert!(!p.active && p.depth == 0 && p.buckets.is_empty());
}

#[test]
fn nothing_is_recorded_unless_asked_for() {
    let mut p = Profile::new();
    assert!(!p.begin(false, 1));
    assert_eq!(p.scope(2), None);
    p.record("x", 5);
    assert!(p.buckets.is_empty());
    assert!(p.finish(3).is_none());
}

#[test]
fn scopes_start_while_a_planning_is_profiled() {
    let mut p = Profile::new();
    p.begin(true, 10);
    assert_eq!(p.scope(12), Some(12));
    assert!(p.can_record("x", 1));
    p.record("x", MAX_TIME);
    assert!(!p.can_record("x", 1));
    assert!(p.can_record("x", 0));
    assert!(p.can_record("y", MAX_TIME));
    // A clock that runs backwards gives no time.
    assert_eq!(p.finish(3).unwrap().total, 0);
}
