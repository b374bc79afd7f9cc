use lanchat::bridge::{CommandQueue, QUEUE_CAPACITY};
use lanchat::message::{ChatMessage, Command};

fn send_cmd(n: i64) -> Command {
    Command::SendMessage(ChatMessage {
        content: format!("message {n}"),
        nickname: "alice".to_string(),
        timestamp: n,
    })
}

#[test]
fn capacity_is_one_hundred() {
    assert_eq!(QUEUE_CAPACITY, 100);
}

#[test]
fn the_hundred_and_first_submission_must_wait() {
    // Submitting 101 commands without the coordinator consuming any leaves
    // the 101st waiting until the coordinator drains at least one.
    let mut q = CommandQueue::new();
    for n in 0..100 {
        assert!(q.try_enqueue(send_cmd(n)), "submission {n} must be accepted");
    }
    assert!(!q.try_enqueue(send_cmd(100)), "the 101st submission must wait");
    assert_eq!(q.len(), 100);
    assert!(q.dequeue().is_some());
    assert!(q.try_enqueue(send_cmd(100)), "after one drain the retry must be accepted");
    assert_eq!(q.len(), 100);
}

#[test]
fn commands_leave_in_submission_order() {
    let mut q = CommandQueue::new();
    assert!(q.try_enqueue(send_cmd(1)));
    assert!(q.try_enqueue(send_cmd(2)));
    let first = q.dequeue().unwrap();
    let second = q.dequeue().unwrap();
    let Command::SendMessage(m1) = first;
    let Command::SendMessage(m2) = second;
    assert_eq!(m1.timestamp, 1);
    assert_eq!(m2.timestamp, 2);
    assert!(q.dequeue().is_none());
}

#[test]
fn refused_enqueue_drops_nothing() {
    let mut q = CommandQueue::new();
    for n in 0..100 {
        assert!(q.try_enqueue(send_cmd(n)));
    }
    assert!(!q.try_enqueue(send_cmd(999)));
    for n in 0..100 {
        let Command::SendMessage(m) = q.dequeue().unwrap();
        assert_eq!(m.timestamp, n);
    }
    assert!(q.dequeue().is_none());
}
