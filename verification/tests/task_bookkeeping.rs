use initfs::task::{
    add_message, lock_acquire, lock_count, lock_get, lock_release, lock_set, receive_message,
    IpcChannel, IpcCopy, IpcMessage, IpcRequest, Lock, LockTable,
};

#[test]
fn lock_value_get_set() {
    let mut l = Lock(3);
    assert_eq!(l.get(), 3);
    l.set(9);
    assert_eq!(l.get(), 9);
    assert_eq!(l.0, 9);
}

#[test]
fn acquired_lock_reads_zero_and_takes_the_counter() {
    let mut t = LockTable::new();
    assert_eq!(lock_count(&t), 0);
    let id = lock_acquire(&mut t);
    assert_eq!(id, 0);
    assert_eq!(t.len(), 1);
    assert_eq!(lock_get(&t, id), 0);
    assert_eq!(lock_count(&t), 1);
    assert_eq!(lock_acquire(&mut t), 1);
    assert_eq!(lock_count(&t), 2);
    assert_eq!(t.len(), 2);
}

#[test]
fn two_locks_have_their_own_ids() {
    // As the lock test program uses them: a signal and a mutex.
    let mut t = LockTable::new();
    let signal = lock_acquire(&mut t);
    let mutex = lock_acquire(&mut t);
    assert_ne!(signal, mutex);
    lock_set(&mut t, mutex, 1);
    lock_set(&mut t, signal, 19);
    assert_eq!(lock_get(&t, mutex), 1);
    assert_eq!(lock_get(&t, signal), 19);
    lock_release(&mut t, mutex);
    assert_eq!(lock_get(&t, mutex), 0);
    assert_eq!(lock_get(&t, signal), 19);
    assert_eq!(t.len(), 1);
}

#[test]
fn get_after_set() {
    let mut t = LockTable::new();
    let id = lock_acquire(&mut t);
    lock_set(&mut t, id, 42);
    assert_eq!(lock_get(&t, id), 42);
    lock_set(&mut t, id, 7);
    assert_eq!(lock_get(&t, id), 7);
}

#[test]
fn set_of_missing_id_does_nothing() {
    let mut t = LockTable::new();
    lock_acquire(&mut t);
    lock_set(&mut t, 5, 42);
    assert_eq!(lock_get(&t, 5), 0);
    assert_eq!(lock_get(&t, 0), 0);
    assert_eq!(t.len(), 1);
}

#[test]
fn acquire_keeps_earlier_reads() {
    let mut t = LockTable::new();
    let id = lock_acquire(&mut t);
    lock_set(&mut t, id, 11);
    let again = lock_acquire(&mut t);
    assert_ne!(again, id);
    assert_eq!(lock_get(&t, id), 11);
    assert_eq!(lock_get(&t, again), 0);
}

#[test]
fn release_removes_the_lock_of_the_id() {
    let mut t = LockTable::new();
    let a = lock_acquire(&mut t);
    let b = lock_acquire(&mut t);
    lock_set(&mut t, a, 5);
    lock_set(&mut t, b, 6);
    lock_release(&mut t, a);
    assert_eq!(t.len(), 1);
    assert_eq!(lock_get(&t, a), 0);
    assert_eq!(lock_get(&t, b), 6);
    lock_release(&mut t, a);
    assert_eq!(t.len(), 1);
    // Released ids are not handed out again.
    assert_eq!(lock_acquire(&mut t), 2);
}

#[test]
fn translate_pid_splits_halves() {
    let pid = (7usize << 32) | 12;
    assert_eq!(IpcMessage::translate_pid(pid), [7, 12]);
    assert_eq!(IpcMessage::translate_pid(12), [0, 12]);
    assert_eq!(IpcMessage::translate_pid(usize::MAX), [0xffff_ffff, 0xffff_ffff]);
}

#[test]
fn receive_picks_messages_for_the_pid() {
    let mut ch = IpcChannel::new();
    add_message(&mut ch, IpcMessage::new(1, 2, 0x1000, 5));
    add_message(&mut ch, IpcMessage::new(3, 9, 0x2000, 4));
    add_message(&mut ch, IpcMessage::new(4, 2, 0x3000, 10));
    assert_eq!(ch.len(), 3);
    let copies = receive_message(&mut ch, IpcRequest::new(2, 0x8000, 8), &vec![true, true, true]);
    assert_eq!(
        copies,
        vec![
            IpcCopy { from_pid: 1, src: 0x1000, dst: 0x8000, len: 5 },
            IpcCopy { from_pid: 4, src: 0x3000, dst: 0x8005, len: 3 },
        ]
    );
    // The delivered messages leave the channel; the one for pid 9 stays.
    assert_eq!(ch.len(), 1);
    assert!(receive_message(&mut ch, IpcRequest::new(2, 0x9000, 8), &vec![true]).is_empty());
    assert_eq!(ch.len(), 1);
    let copies = receive_message(&mut ch, IpcRequest::new(9, 0x9000, 8), &vec![true]);
    assert_eq!(copies, vec![IpcCopy { from_pid: 3, src: 0x2000, dst: 0x9000, len: 4 }]);
    assert_eq!(ch.len(), 0);
}

#[test]
fn receive_skips_senders_without_task() {
    let mut ch = IpcChannel::new();
    add_message(&mut ch, IpcMessage::new(1, 2, 0x1000, 5));
    add_message(&mut ch, IpcMessage::new(4, 2, 0x3000, 10));
    let copies = receive_message(&mut ch, IpcRequest::new(2, 0x8000, 17), &vec![false, true]);
    assert_eq!(copies, vec![IpcCopy { from_pid: 4, src: 0x3000, dst: 0x8000, len: 10 }]);
    // The message whose sender has no task is not delivered and stays.
    assert_eq!(ch.len(), 1);
}

#[test]
fn receive_with_full_buffer_copies_nothing_more() {
    let mut ch = IpcChannel::new();
    add_message(&mut ch, IpcMessage::new(1, 2, 0x1000, 5));
    add_message(&mut ch, IpcMessage::new(4, 2, 0x3000, 10));
    let copies = receive_message(&mut ch, IpcRequest::new(2, 0x8000, 5), &vec![true, true]);
    assert_eq!(
        copies,
        vec![
            IpcCopy { from_pid: 1, src: 0x1000, dst: 0x8000, len: 5 },
            IpcCopy { from_pid: 4, src: 0x3000, dst: 0x8005, len: 0 },
        ]
    );
}

#[test]
fn send_then_receive() {
    let mut ch = IpcChannel::new();
    add_message(&mut ch, IpcMessage::new(5, 9, 0x1000, 4));
    add_message(&mut ch, IpcMessage::new(3, 7, 0x4000, 17));
    let copies = receive_message(&mut ch, IpcRequest::new(7, 0x9000, 17), &vec![true, true]);
    assert_eq!(copies, vec![IpcCopy { from_pid: 3, src: 0x4000, dst: 0x9000, len: 17 }]);
    // A second receive by the same pid gets nothing again.
    assert!(receive_message(&mut ch, IpcRequest::new(7, 0xa000, 17), &vec![true]).is_empty());
    assert_eq!(ch.len(), 1);
}

#[test]
fn receive_from_empty_channel() {
    let mut ch = IpcChannel::new();
    assert!(receive_message(&mut ch, IpcRequest::new(2, 0, 17), &vec![]).is_empty());
}
