use rcu::gate::GateRcu;

fn read_now(m: &mut GateRcu<Vec<i32>>, r: usize) -> Vec<i32> {
    assert!(m.reader_arrive(r));
    m.reader_register(r);
    m.reader_load(r);
    let v = m.reader_copy(r);
    m.reader_unregister(r);
    v
}

fn update_now(m: &mut GateRcu<Vec<i32>>, w: usize, v: Vec<i32>) -> bool {
    m.writer_prepare(w, v);
    assert!(m.writer_arm(w));
    if m.writer_swap(w) {
        m.writer_close_gate(w);
        assert!(m.writer_observe(w));
        m.writer_move_marker(w);
        m.writer_reclaim(w);
        m.writer_open_gate(w);
        true
    } else {
        m.writer_discard(w);
        false
    }
}

#[test]
fn two_concurrent_updates_exactly_one_wins() {
    // initial value []; two writers race update([1]) and update([2])
    let mut m: GateRcu<Vec<i32>> = GateRcu::new(vec![], 1, 2);
    m.writer_prepare(0, vec![1]);
    m.writer_prepare(1, vec![2]);
    assert!(m.writer_arm(0));
    assert!(m.writer_arm(1));
    let won0 = m.writer_swap(0);
    let won1 = m.writer_swap(1);
    // exactly one returns true, the other false
    assert!(won0);
    assert!(!won1);
    // the winner drains and reclaims; the loser discards its value
    m.writer_close_gate(0);
    assert!(m.writer_observe(0));
    m.writer_move_marker(0);
    m.writer_reclaim(0);
    m.writer_open_gate(0);
    m.writer_discard(1);
    // a subsequent read sees the winner's value whole, never a hybrid
    let seen = read_now(&mut m, 0);
    assert_eq!(seen, vec![1]);
}

#[test]
fn race_in_the_other_order_lets_the_other_writer_win() {
    let mut m: GateRcu<Vec<i32>> = GateRcu::new(vec![], 1, 2);
    m.writer_prepare(1, vec![2]);
    m.writer_prepare(0, vec![1]);
    assert!(m.writer_arm(1));
    assert!(m.writer_swap(1));
    assert!(m.writer_arm(0));
    assert!(!m.writer_swap(0));
    m.writer_close_gate(1);
    assert!(m.writer_observe(1));
    m.writer_move_marker(1);
    m.writer_reclaim(1);
    m.writer_open_gate(1);
    m.writer_discard(0);
    assert_eq!(read_now(&mut m, 0), vec![2]);
}

#[test]
fn reader_that_registered_before_an_update_reads_a_complete_value() {
    // the reader begins registration, then the writer completes its swap:
    // the in-flight read may return old or new, but always a whole value
    let mut m: GateRcu<Vec<i32>> = GateRcu::new(vec![10, 11], 1, 1);
    assert!(m.reader_arrive(0));
    m.reader_register(0);
    // writer installs [20] while the reader is registered
    m.writer_prepare(0, vec![20]);
    assert!(m.writer_arm(0));
    assert!(m.writer_swap(0));
    m.writer_close_gate(0);
    // the writer cannot reclaim yet: the reader is still counted
    assert!(!m.writer_observe(0));
    // the reader loads after the swap, so it sees the new value, whole
    m.reader_load(0);
    let seen = m.reader_copy(0);
    assert_eq!(seen, vec![20]);
    m.reader_unregister(0);
    // now the drain succeeds and the old generation is reclaimed
    assert!(m.writer_observe(0));
    m.writer_move_marker(0);
    m.writer_reclaim(0);
    m.writer_open_gate(0);
    assert_eq!(read_now(&mut m, 0), vec![20]);
}

#[test]
fn reader_pinned_to_the_old_generation_still_reads_it_whole() {
    // the reader loads before the swap; the writer must wait out the
    // reader before it can reclaim what the reader still holds
    let mut m: GateRcu<Vec<i32>> = GateRcu::new(vec![10, 11], 1, 1);
    assert!(m.reader_arrive(0));
    m.reader_register(0);
    m.reader_load(0);
    m.writer_prepare(0, vec![20]);
    assert!(m.writer_arm(0));
    assert!(m.writer_swap(0));
    m.writer_close_gate(0);
    assert!(!m.writer_observe(0));
    // the pinned old value is still intact under the reader
    let seen = m.reader_copy(0);
    assert_eq!(seen, vec![10, 11]);
    m.reader_unregister(0);
    assert!(m.writer_observe(0));
    m.writer_move_marker(0);
    m.writer_reclaim(0);
    m.writer_open_gate(0);
    assert_eq!(read_now(&mut m, 0), vec![20]);
}

#[test]
fn closed_gate_turns_new_readers_away_until_reopened() {
    let mut m: GateRcu<Vec<i32>> = GateRcu::new(vec![1], 1, 1);
    m.writer_prepare(0, vec![2]);
    assert!(m.writer_arm(0));
    assert!(m.writer_swap(0));
    m.writer_close_gate(0);
    // a new reader cannot begin while the write gate is closed
    assert!(!m.reader_arrive(0));
    assert!(m.writer_observe(0));
    m.writer_move_marker(0);
    m.writer_reclaim(0);
    m.writer_open_gate(0);
    // the write gate reopened; the read goes through
    assert_eq!(read_now(&mut m, 0), vec![2]);
}

#[test]
fn second_writer_waits_while_the_gate_is_closed() {
    let mut m: GateRcu<Vec<i32>> = GateRcu::new(vec![1], 1, 2);
    m.writer_prepare(0, vec![2]);
    assert!(m.writer_arm(0));
    assert!(m.writer_swap(0));
    m.writer_close_gate(0);
    m.writer_prepare(1, vec![3]);
    // the second writer's gate check fails until the winner reopens it
    assert!(!m.writer_arm(1));
    assert!(m.writer_observe(0));
    m.writer_move_marker(0);
    m.writer_reclaim(0);
    m.writer_open_gate(0);
    // it may proceed now, but its marker is stale: the swap loses
    assert!(m.writer_arm(1));
    assert!(!m.writer_swap(1));
    m.writer_discard(1);
    // retried with a freshly loaded marker, the update goes through
    assert!(update_now(&mut m, 1, vec![3]));
    assert_eq!(read_now(&mut m, 0), vec![3]);
}

#[test]
fn failed_update_leaves_the_cell_as_it_was() {
    let mut m: GateRcu<Vec<i32>> = GateRcu::new(vec![5, 6], 1, 2);
    // writer 1 loads its expected marker, then writer 0 moves the cell on
    m.writer_prepare(1, vec![9]);
    assert!(update_now(&mut m, 0, vec![7]));
    assert!(m.writer_arm(1));
    assert!(!m.writer_swap(1));
    m.writer_discard(1);
    // the losing update mutated nothing: the cell still holds the value
    // writer 0 installed
    assert_eq!(read_now(&mut m, 0), vec![7]);
}

#[test]
fn updates_install_in_swap_order() {
    let mut m: GateRcu<Vec<i32>> = GateRcu::new(vec![0], 1, 1);
    assert!(update_now(&mut m, 0, vec![1]));
    assert_eq!(read_now(&mut m, 0), vec![1]);
    assert!(update_now(&mut m, 0, vec![1, 2]));
    assert_eq!(read_now(&mut m, 0), vec![1, 2]);
    assert!(update_now(&mut m, 0, vec![1, 2, 3]));
    assert_eq!(read_now(&mut m, 0), vec![1, 2, 3]);
}
