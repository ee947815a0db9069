use runqueue::RunQueue;
use runqueue::RunqueueId;
use runqueue::ThreadId;

const SCHED_PRIO_LEVELS: usize = 8;
const THREADS_NUMOF: usize = 16;

fn queue() -> RunQueue<SCHED_PRIO_LEVELS, THREADS_NUMOF> {
    RunQueue::new()
}

#[test]
fn peek_empty_queue() {
    let q = queue();
    assert_eq!(q.peek_head(), None);
}

#[test]
fn add_del_single_level() {
    let mut q = queue();
    q.add(ThreadId::new(0), RunqueueId::new(5));
    assert_eq!(q.peek_head(), Some(ThreadId::new(0)));
    q.del(ThreadId::new(0), RunqueueId::new(5));
    assert_eq!(q.peek_head(), None);
}

#[test]
fn higher_level_wins() {
    let mut q = queue();
    q.add(ThreadId::new(1), RunqueueId::new(2));
    q.add(ThreadId::new(2), RunqueueId::new(5));
    assert_eq!(q.peek_head(), Some(ThreadId::new(2)));
    q.del(ThreadId::new(2), RunqueueId::new(5));
    assert_eq!(q.peek_head(), Some(ThreadId::new(1)));
}

#[test]
fn round_robin_three() {
    let mut q = queue();
    let level = RunqueueId::new(3);
    q.add(ThreadId::new(1), level);
    q.add(ThreadId::new(2), level);
    q.add(ThreadId::new(3), level);
    assert_eq!(q.peek_head(), Some(ThreadId::new(1)));
    q.advance(level);
    assert_eq!(q.peek_head(), Some(ThreadId::new(2)));
    q.advance(level);
    assert_eq!(q.peek_head(), Some(ThreadId::new(3)));
    q.advance(level);
    assert_eq!(q.peek_head(), Some(ThreadId::new(1)));
}

#[test]
fn add_del_round_trip_keeps_order() {
    let mut q = queue();
    let level = RunqueueId::new(2);
    q.add(ThreadId::new(1), level);
    q.add(ThreadId::new(2), level);
    assert_eq!(q.peek_head(), Some(ThreadId::new(1)));
    q.add(ThreadId::new(3), level);
    q.del(ThreadId::new(3), level);
    assert_eq!(q.peek_head(), Some(ThreadId::new(1)));
    q.advance(level);
    assert_eq!(q.peek_head(), Some(ThreadId::new(2)));
    q.advance(level);
    assert_eq!(q.peek_head(), Some(ThreadId::new(1)));
}

#[test]
fn del_sole_member_clears_level() {
    let mut q = queue();
    q.add(ThreadId::new(4), RunqueueId::new(6));
    q.add(ThreadId::new(5), RunqueueId::new(3));
    assert_eq!(q.peek_head(), Some(ThreadId::new(4)));
    q.del(ThreadId::new(4), RunqueueId::new(6));
    assert_eq!(q.peek_head(), Some(ThreadId::new(5)));
    q.add(ThreadId::new(6), RunqueueId::new(6));
    assert_eq!(q.peek_head(), Some(ThreadId::new(6)));
}

#[test]
fn del_middle_of_level_keeps_head_and_tail() {
    let mut q = queue();
    let level = RunqueueId::new(0);
    q.add(ThreadId::new(7), level);
    q.add(ThreadId::new(8), level);
    q.add(ThreadId::new(9), level);
    q.del(ThreadId::new(8), level);
    assert_eq!(q.peek_head(), Some(ThreadId::new(7)));
    q.advance(level);
    assert_eq!(q.peek_head(), Some(ThreadId::new(9)));
    q.advance(level);
    assert_eq!(q.peek_head(), Some(ThreadId::new(7)));
}

#[test]
fn advance_on_empty_level_is_noop() {
    let mut q = queue();
    q.add(ThreadId::new(10), RunqueueId::new(1));
    q.advance(RunqueueId::new(4));
    assert_eq!(q.peek_head(), Some(ThreadId::new(10)));
}

#[test]
fn thread_moves_between_levels() {
    let mut q = queue();
    q.add(ThreadId::new(11), RunqueueId::new(2));
    q.del(ThreadId::new(11), RunqueueId::new(2));
    q.add(ThreadId::new(11), RunqueueId::new(7));
    assert_eq!(q.peek_head(), Some(ThreadId::new(11)));
    q.del(ThreadId::new(11), RunqueueId::new(7));
    assert_eq!(q.peek_head(), None);
}
