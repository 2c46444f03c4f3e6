use rcore_os::task::manager::TaskManager;
use rcore_os::task::processor::Processor;
use rcore_os::task::task::{TaskControlBlock, BIG_STRIDE, DEFAULT_PRIORITY};
use rcore_os::task::{exit_current_and_run_next, suspend_current_and_run_next};

#[test]
fn fetch_from_empty_queue_is_none() {
    let mut m = TaskManager::new();
    assert!(m.fetch().is_none());
}

#[test]
fn fetch_takes_smallest_pass_and_advances_it() {
    let mut m = TaskManager::new();
    m.add(TaskControlBlock::with_priority(1, 16, 300));
    m.add(TaskControlBlock::with_priority(2, 8, 100));
    m.add(TaskControlBlock::with_priority(3, 16, 200));
    let t = m.fetch().unwrap();
    assert_eq!(t.getpid(), 2);
    assert_eq!(t.stride_pass(), 100 + BIG_STRIDE / 8);
    let t = m.fetch().unwrap();
    assert_eq!(t.getpid(), 3);
    assert_eq!(t.stride_pass(), 200 + BIG_STRIDE / 16);
    let t = m.fetch().unwrap();
    assert_eq!(t.getpid(), 1);
    assert!(m.fetch().is_none());
}

#[test]
fn equal_passes_go_to_the_smaller_pid() {
    let mut m = TaskManager::new();
    m.add(TaskControlBlock::with_priority(9, 16, 50));
    m.add(TaskControlBlock::with_priority(4, 16, 50));
    m.add(TaskControlBlock::with_priority(6, 16, 50));
    assert_eq!(m.fetch().unwrap().getpid(), 4);
    assert_eq!(m.fetch().unwrap().getpid(), 6);
    assert_eq!(m.fetch().unwrap().getpid(), 9);
}

#[test]
fn equal_keys_go_in_queue_order() {
    let mut m = TaskManager::new();
    m.add(TaskControlBlock::with_priority(5, 16, 10));
    m.add(TaskControlBlock::with_priority(5, 2, 10));
    let first = m.fetch().unwrap();
    assert_eq!(first.get_priority(), 16);
    let second = m.fetch().unwrap();
    assert_eq!(second.get_priority(), 2);
}

#[test]
fn stride_is_at_least_one_and_pass_saturates() {
    let mut t = TaskControlBlock::with_priority(1, BIG_STRIDE + 1, 5);
    t.advance_stride();
    assert_eq!(t.stride_pass(), 6);
    let mut u = TaskControlBlock::with_priority(2, 1, usize::MAX - 3);
    u.advance_stride();
    assert_eq!(u.stride_pass(), usize::MAX);
    let mut v = TaskControlBlock::new(3);
    assert_eq!(v.get_priority(), DEFAULT_PRIORITY);
    v.advance_stride();
    assert_eq!(v.stride_pass(), BIG_STRIDE / DEFAULT_PRIORITY);
}

#[test]
fn higher_priority_runs_more_often() {
    let mut m = TaskManager::new();
    m.add(TaskControlBlock::with_priority(1, 2, 0));
    m.add(TaskControlBlock::with_priority(2, 8, 0));
    let mut runs = [0usize; 3];
    for _ in 0..50 {
        let t = m.fetch().unwrap();
        runs[t.getpid()] += 1;
        m.add(t);
    }
    assert_eq!(runs[1] + runs[2], 50);
    assert!(runs[2] >= 3 * runs[1]);
}

#[test]
fn suspend_requeues_and_picks_next() {
    let mut m = TaskManager::new();
    let mut p = Processor::new();
    m.add(TaskControlBlock::with_priority(1, 16, 0));
    m.add(TaskControlBlock::with_priority(2, 16, 0));
    suspend_current_and_run_next(&mut p, &mut m);
    assert_eq!(p.current_pid(), Some(1));
    suspend_current_and_run_next(&mut p, &mut m);
    assert_eq!(p.current_pid(), Some(2));
    suspend_current_and_run_next(&mut p, &mut m);
    assert_eq!(p.current_pid(), Some(1));
}

#[test]
fn exit_drops_current_and_picks_next() {
    let mut m = TaskManager::new();
    let mut p = Processor::new();
    m.add(TaskControlBlock::with_priority(1, 16, 0));
    m.add(TaskControlBlock::with_priority(2, 16, 5));
    exit_current_and_run_next(&mut p, &mut m);
    assert_eq!(p.current_pid(), Some(1));
    exit_current_and_run_next(&mut p, &mut m);
    assert_eq!(p.current_pid(), Some(2));
    exit_current_and_run_next(&mut p, &mut m);
    assert_eq!(p.current_pid(), None);
    assert!(p.take_current().is_none());
}

#[test]
fn n_fetches_after_n_adds_return_each_task_once() {
    let mut m = TaskManager::new();
    let pids = [7usize, 3, 9, 3, 5];
    for (k, pid) in pids.iter().enumerate() {
        m.add(TaskControlBlock::with_priority(*pid, 2 + k, 1000 - 100 * k));
    }
    let mut got: Vec<usize> = Vec::new();
    for _ in 0..pids.len() {
        got.push(m.fetch().unwrap().getpid());
    }
    assert!(m.fetch().is_none());
    let mut want = pids.to_vec();
    want.sort();
    got.sort();
    assert_eq!(got, want);
}
