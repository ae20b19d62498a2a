use file_system_backup::cancellation::{CancelSignal, CancelSignals};

#[test]
fn first_reason_wins() {
    let mut signals = CancelSignals::new();
    let signal = CancelSignal::new(&mut signals);
    assert!(!signal.check(&signals));
    assert_eq!(signal.reason(&signals), None);
    assert_eq!(signal.as_error(&signals), Ok(()));
    signal.cancel_with_reason(&mut signals, "first");
    signal.cancel_with_reason(&mut signals, "second");
    assert!(signal.check(&signals));
    assert_eq!(signal.reason(&signals), Some("first".to_string()));
    assert_eq!(
        signal.as_error(&signals),
        Err(CancelSignal::error_with_cancel_reason(Some("first")))
    );
}

#[test]
fn errors_tell_the_reason() {
    let with = CancelSignal::error_with_cancel_reason(Some("Ctrl-C signal"));
    let without = CancelSignal::error_with_cancel_reason(None);
    assert!(with.contains("Ctrl-C signal"));
    assert!(!without.contains("Ctrl-C signal"));
}

#[test]
fn children_are_canceled_with_their_parent() {
    let mut signals = CancelSignals::new();
    let parent = CancelSignal::new(&mut signals);
    let child = parent.new_child_signal(&mut signals);
    let grandchild = child.new_child_signal(&mut signals);
    let other = CancelSignal::new(&mut signals);
    parent.cancel_with_reason(&mut signals, "stop");
    assert_eq!(child.reason(&signals), Some("stop".to_string()));
    assert_eq!(grandchild.reason(&signals), Some("stop".to_string()));
    assert!(!other.check(&signals));
}

#[test]
fn parents_are_not_canceled_with_a_child() {
    let mut signals = CancelSignals::new();
    let parent = CancelSignal::new(&mut signals);
    let child = parent.new_child_signal(&mut signals);
    child.cancel(&mut signals);
    assert!(child.check(&signals));
    assert!(!parent.check(&signals));
}

#[test]
fn signals_can_have_a_canceled_parent() {
    let mut signals = CancelSignals::new();
    let parent = CancelSignal::new(&mut signals);
    let signal = CancelSignal::new(&mut signals);
    parent.cancel_with_reason(&mut signals, "over");
    signal.add_parent_signal(&mut signals, &parent);
    assert_eq!(signal.reason(&signals), Some("over".to_string()));
}

#[test]
fn tasks_are_woken_once() {
    let mut signals = CancelSignals::new();
    let signal = CancelSignal::new(&mut signals);
    let child = signal.new_child_signal(&mut signals);
    let mut future = signal.wait_future();
    let mut below = child.wait_future();
    assert!(!future.poll(&mut signals, 11));
    assert_eq!(below.set_waker(&mut signals, 12), Ok(()));
    let mut tasks = signal.cancel(&mut signals);
    tasks.sort();
    assert_eq!(tasks, [11, 12]);
    assert_eq!(signal.cancel(&mut signals), Vec::<u64>::new());
    assert!(future.poll(&mut signals, 11));
    assert!(below.set_waker(&mut signals, 13).is_err());
}

#[test]
fn forgotten_tasks_are_not_woken() {
    let mut signals = CancelSignals::new();
    let signal = CancelSignal::new(&mut signals);
    let mut future = signal.wait_future();
    assert_eq!(future.set_waker_from_closure(&mut signals, 5), Ok(()));
    future.release(&mut signals);
    assert_eq!(signal.cancel(&mut signals), Vec::<u64>::new());
    let mut late = signal.wait_future();
    assert!(late.set_waker_from_closure(&mut signals, 6).is_err());
}

#[test]
fn only_the_last_task_is_woken() {
    let mut signals = CancelSignals::new();
    let signal = CancelSignal::new(&mut signals);
    let mut other = signal.wait_future();
    assert_eq!(other.set_waker(&mut signals, 1), Ok(()));
    let mut future = signal.wait_future();
    assert_eq!(future.set_waker(&mut signals, 2), Ok(()));
    assert_eq!(future.set_waker(&mut signals, 3), Ok(()));
    assert_eq!(signal.cancel(&mut signals), [1, 3]);
    assert_eq!(future.set_waker(&mut signals, 4), Err(4));
}

#[test]
fn disconnected_futures_leave_their_task() {
    let mut signals = CancelSignals::new();
    let signal = CancelSignal::new(&mut signals);
    let mut future = signal.wait_future();
    assert_eq!(future.set_waker_from_closure(&mut signals, 8), Ok(()));
    future.forget().release(&mut signals);
    assert_eq!(signal.cancel(&mut signals), [8]);
    assert_eq!(signal.cancel(&mut signals), Vec::<u64>::new());
}

#[test]
fn guards_cancel_when_released() {
    let mut signals = CancelSignals::new();
    let signal = CancelSignal::new(&mut signals);
    let guard = signal.cancel_on_drop();
    let same = guard.disarm();
    assert_eq!(same, signal);
    assert!(!signal.check(&signals));
    signal.cancel_on_drop().release(&mut signals);
    assert!(signal.check(&signals));
}

#[test]
fn input_and_output_end_with_the_signal() {
    let mut signals = CancelSignals::new();
    let signal = CancelSignal::new(&mut signals);
    let wrapped = signal.wrap_io(7u8);
    assert_eq!(wrapped.get(&signals), Ok(&7));
    assert_eq!(signal.wait_timeout(&signals, true), Ok(()));
    signal.cancel(&mut signals);
    assert!(wrapped.get(&signals).is_err());
    assert!(signal.wait_timeout(&signals, false).is_err());
}
