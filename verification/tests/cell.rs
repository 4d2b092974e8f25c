use rcu::cell::Rcu;

#[test]
fn new_then_read_returns_initial_value() {
    let cell = Rcu::new(vec![1, 2, 3]);
    assert_eq!(cell.read(), vec![1, 2, 3]);
}

#[test]
fn read_returns_a_full_copy() {
    let cell = Rcu::new(String::from("alpha"));
    let mut copy = cell.read();
    copy.push_str("-changed");
    // the copy is the caller's own; the cell still holds the original
    assert_eq!(cell.read(), "alpha");
}

#[test]
fn update_reports_success_and_installs_the_new_value() {
    let mut cell = Rcu::new(vec![]);
    assert!(cell.update(vec![7]));
    assert_eq!(cell.read(), vec![7]);
    assert!(cell.update(vec![7, 8]));
    assert_eq!(cell.read(), vec![7, 8]);
}

#[test]
fn empty_initial_value_then_one_update() {
    let mut cell = Rcu::new(Vec::<i32>::new());
    assert_eq!(cell.read(), Vec::<i32>::new());
    assert!(cell.update(vec![1]));
    assert_eq!(cell.read(), vec![1]);
}

#[test]
fn subscriber_reads_what_the_cell_holds() {
    let cell = Rcu::new(42u64);
    let sub = cell.subscribe();
    assert_eq!(sub.read(), 42);
}

#[test]
fn subscriber_sees_no_stale_value_after_update() {
    let mut cell = Rcu::new(1u64);
    assert!(cell.update(2));
    let sub = cell.subscribe();
    assert_eq!(sub.read(), 2);
}
