use rcu::guard::GuardRcu;

#[test]
fn guard_reads_the_generation_it_loaded() {
    let mut m: GuardRcu<Vec<i32>> = GuardRcu::new(vec![1, 2], 4);
    m.acquire(0);
    assert_eq!(m.guard_value(0), vec![1, 2]);
    // releasing the only guard does not free the current generation: the
    // cell itself still holds a reference
    assert!(!m.release(0));
    assert_eq!(m.value_now(), vec![1, 2]);
}

#[test]
fn last_guard_out_frees_the_retired_generation() {
    let mut m: GuardRcu<Vec<i32>> = GuardRcu::new(vec![1], 4);
    m.acquire(0);
    m.acquire(1);
    // install retires the old generation, but two guards still hold it
    assert!(m.install(0, vec![2]));
    assert_eq!(m.guard_value(0), vec![1]);
    assert_eq!(m.guard_value(1), vec![1]);
    // first release is not the last reference
    assert!(!m.release(0));
    assert_eq!(m.guard_value(1), vec![1]);
    // the second release crosses one-to-zero and frees the generation
    assert!(m.release(1));
}

#[test]
fn the_other_drop_order_frees_exactly_once_too() {
    let mut m: GuardRcu<Vec<i32>> = GuardRcu::new(vec![1], 4);
    m.acquire(0);
    m.acquire(1);
    assert!(m.install(0, vec![2]));
    assert!(!m.release(1));
    assert_eq!(m.guard_value(0), vec![1]);
    assert!(m.release(0));
}

#[test]
fn install_with_no_guards_frees_the_old_generation_itself() {
    let mut m: GuardRcu<Vec<i32>> = GuardRcu::new(vec![1], 2);
    assert!(m.install(0, vec![2]));
    assert_eq!(m.value_now(), vec![2]);
    // fresh guards load the new generation
    m.acquire(0);
    assert_eq!(m.guard_value(0), vec![2]);
    assert!(!m.release(0));
}

#[test]
fn stale_install_fails_and_changes_nothing() {
    let mut m: GuardRcu<Vec<i32>> = GuardRcu::new(vec![1], 2);
    assert!(m.install(0, vec![2]));
    // an installer comparing against the retired generation loses
    assert!(!m.install(0, vec![3]));
    assert_eq!(m.value_now(), vec![2]);
    // comparing against the live generation wins
    assert!(m.install(1, vec![3]));
    assert_eq!(m.value_now(), vec![3]);
}

#[test]
fn guards_over_different_generations_release_independently() {
    let mut m: GuardRcu<Vec<i32>> = GuardRcu::new(vec![1], 4);
    m.acquire(0);
    assert!(m.install(0, vec![2]));
    m.acquire(1);
    assert_eq!(m.guard_value(0), vec![1]);
    assert_eq!(m.guard_value(1), vec![2]);
    // guard 0 is the last holder of the retired generation
    assert!(m.release(0));
    // guard 1 shares the live generation with the cell
    assert!(!m.release(1));
    assert_eq!(m.value_now(), vec![2]);
}
