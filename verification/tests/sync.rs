use libkernel::sync::condvar::{CondVar, WakeupType};
use libkernel::sync::mpsc::channel;
use libkernel::sync::mutex::{Mutex, MutexState};
use libkernel::sync::once_lock::OnceLock;
use libkernel::sync::per_cpu::{PerCpu, PerCpuInitializer};
use libkernel::sync::rwlock::{ReadPoll, Rwlock, RwlockState};
use libkernel::sync::waker_set::{wait_until, WakerSet};

/// A waker is the number of its task.
type Waker = u32;

struct TestState {
    counter: u32,
}

#[test]
fn wait_and_wake_one() {
    let mut condvar: CondVar<TestState, Waker> = CondVar::new(TestState { counter: 0 });
    let mut wait = wait_until();
    let condition = |state: &mut TestState| {
        if state.counter == 1 {
            Some("Condition Met".to_string())
        } else {
            None
        }
    };

    assert_eq!(condvar.wait_until(&mut wait, condition, 1), None);

    let woken = condvar.update(|state| {
        state.counter += 1;
        WakeupType::One
    });
    assert_eq!(woken, [1]);

    let result = condvar.wait_until(&mut wait, condition, 1);
    assert_eq!(result, Some("Condition Met".to_string()));
}

#[test]
fn test_wait_and_wake_all() {
    let mut condvar: CondVar<TestState, Waker> = CondVar::new(TestState { counter: 0 });
    let condition = |state: &mut TestState| {
        if state.counter >= 5 {
            Some(state.counter)
        } else {
            None
        }
    };

    // Three tasks wait for the counter to reach 5.
    let mut waits = vec![wait_until(), wait_until(), wait_until()];
    for (i, wait) in waits.iter_mut().enumerate() {
        assert_eq!(condvar.wait_until(wait, condition, i as u32), None);
    }

    let woken = condvar.update(|state| {
        state.counter = 5;
        WakeupType::All
    });
    assert_eq!(woken, [0, 1, 2]);

    for (i, wait) in waits.iter_mut().enumerate() {
        assert_eq!(condvar.wait_until(wait, condition, i as u32), Some(5));
    }
}

#[test]
fn test_predicate_already_true() {
    let mut condvar: CondVar<TestState, Waker> = CondVar::new(TestState { counter: 10 });

    // This should complete immediately without pending.
    let result = condvar.wait_until(
        &mut wait_until(),
        |state: &mut TestState| {
            if state.counter == 10 {
                Some("Already True")
            } else {
                None
            }
        },
        1,
    );

    assert_eq!(result, Some("Already True"));
}

#[test]
fn test_update_with_no_wakeup() {
    let mut condvar: CondVar<TestState, Waker> = CondVar::new(TestState { counter: 0 });
    let mut wait = wait_until();
    let condition =
        |state: &mut TestState| if state.counter == 1 { Some(()) } else { None };
    assert_eq!(condvar.wait_until(&mut wait, condition, 1), None);

    let woken = condvar.update(|state| {
        state.counter = 1;
        WakeupType::Nobody
    });

    // The task should not be woken.
    assert!(woken.is_empty());

    // Now, perform a wakeup.
    assert_eq!(condvar.update(|_| WakeupType::One), [1]);
    assert_eq!(condvar.wait_until(&mut wait, condition, 1), Some(()));
}

#[test]
fn wait_until_completes_when_condition_is_met() {
    let mut waker_set: WakerSet<Waker, ()> = WakerSet::new();
    let mut wait = wait_until();

    assert_eq!(wait.poll(None::<()>, &mut waker_set, 7), None);
    // A second poll does not register the waker again.
    assert_eq!(wait.poll(None::<()>, &mut waker_set, 7), None);

    // Now, meet the condition and wake the task.
    assert_eq!(waker_set.wake_one(), Some(7));
    assert_eq!(waker_set.wake_one(), None);

    assert_eq!(wait.poll(Some(()), &mut waker_set, 7), Some(()));
    assert!(waker_set.is_empty());
}

#[test]
fn wait_until_drop_removes_waker() {
    let mut waker_set: WakerSet<Waker, ()> = WakerSet::default();
    let mut wait = wait_until();

    // Poll once to register the waker, then give up.
    assert_eq!(wait.poll(None::<()>, &mut waker_set, 7), None);
    assert!(!waker_set.is_empty());
    wait.cancel(&mut waker_set);

    // Check that the waker has been removed from the waker set.
    assert!(waker_set.is_empty());
}

#[test]
fn cancelled_condvar_wait_is_not_woken() {
    let mut condvar: CondVar<TestState, Waker> = CondVar::new(TestState { counter: 0 });
    let mut wait = wait_until();
    assert_eq!(condvar.wait_until(&mut wait, |_: &mut TestState| None::<()>, 1), None);
    condvar.cancel(wait);
    assert!(condvar.update(|_| WakeupType::All).is_empty());
}

#[test]
fn wakers_are_woken_in_order() {
    let mut waker_set: WakerSet<Waker, char> = WakerSet::new();
    let a = waker_set.register_with_data(10, 'a');
    let b = waker_set.register_with_data(20, 'b');
    let c = waker_set.register_with_data(30, 'a');
    assert!(waker_set.contains_token(b));
    waker_set.remove(b);
    assert!(!waker_set.contains_token(b));
    assert!(waker_set.contains_token(a) && waker_set.contains_token(c));
    let d = waker_set.register_with_data(40, 'd');
    assert_eq!(waker_set.wake_if(|data: &char| *data == 'd'), Some(40));
    assert!(!waker_set.contains_token(d));
    assert_eq!(waker_set.wake_if(|data: &char| *data == 'x'), None);
    assert_eq!(waker_set.wake_if(|data: &char| *data == 'a'), Some(10));
    waker_set.register_with_data(50, 'e');
    assert_eq!(waker_set.wake_all(), [30, 50]);
    assert!(waker_set.is_empty());
}

#[test]
fn messages_are_received_in_order() {
    let (mut shared, tx, rx) = channel::<char, Waker>();
    let mut wait = wait_until();
    assert_eq!(rx.recv(&mut shared, &mut wait, 9), None);
    assert_eq!(tx.send(&mut shared, 'a'), [9]);
    assert!(tx.send(&mut shared, 'b').is_empty());
    assert_eq!(rx.recv(&mut shared, &mut wait, 9), Some(Some('a')));
    assert_eq!(rx.recv(&mut shared, &mut wait, 9), Some(Some('b')));
}

#[test]
fn last_sender_closes_the_channel() {
    let (mut shared, tx, rx) = channel::<char, Waker>();
    let mut wait = wait_until();
    let tx2 = tx.duplicate(&mut shared);
    assert_eq!(rx.recv(&mut shared, &mut wait, 9), None);
    assert!(tx.close(&mut shared).is_empty());
    assert_eq!(tx2.send(&mut shared, 'z'), [9]);
    assert!(tx2.close(&mut shared).is_empty());
    // What has been sent is still received.
    assert_eq!(rx.recv(&mut shared, &mut wait, 9), Some(Some('z')));
    assert_eq!(rx.recv(&mut shared, &mut wait, 9), Some(None));
}

#[test]
fn waiting_receiver_is_told_that_the_channel_is_closed() {
    let (mut shared, tx, rx) = channel::<char, Waker>();
    let mut wait = wait_until();
    assert_eq!(rx.recv(&mut shared, &mut wait, 9), None);
    assert_eq!(tx.close(&mut shared), [9]);
    assert_eq!(rx.recv(&mut shared, &mut wait, 9), Some(None));
}

#[test]
fn messages_without_receiver_are_dropped() {
    let (mut shared, tx, rx) = channel::<char, Waker>();
    rx.close(&mut shared);
    assert!(tx.send(&mut shared, 'a').is_empty());
}

#[test]
fn mutex_is_exclusive() {
    let mut mutex: Mutex<u32, Waker> = Mutex::new(5);
    let future = mutex.lock();
    let mut guard = future.poll(&mut mutex, |w: &Waker| *w == 1, 1).unwrap();
    *mutex.access_mut(&mut guard) += 1;
    assert_eq!(*mutex.access(&guard), 6);

    // Two tasks wait, one of them asks twice.
    let other = mutex.lock();
    assert!(other.poll(&mut mutex, |w: &Waker| *w == 2, 2).is_none());
    assert!(other.poll(&mut mutex, |w: &Waker| *w == 3, 3).is_none());
    assert!(other.poll(&mut mutex, |w: &Waker| *w == 2, 2).is_none());

    // They are woken in the order in which they came.
    assert_eq!(mutex.unlock(guard), Some(2));
    let guard = other.poll(&mut mutex, |w: &Waker| *w == 2, 2).unwrap();
    assert_eq!(mutex.unlock(guard), Some(3));
    let guard = other.poll(&mut mutex, |w: &Waker| *w == 3, 3).unwrap();
    assert_eq!(mutex.unlock(guard), None);
    *mutex.get_mut() = 9;
    assert_eq!(mutex.into_inner(), 9);
}

#[test]
fn mutex_state_is_taken_once() {
    let mut state: MutexState<Waker> = MutexState::new();
    assert!(state.poll_acquire(|_: &Waker| false, 1));
    assert!(!state.poll_acquire(|_: &Waker| false, 2));
    assert_eq!(state.release(), Some(2));
    assert_eq!(state.release(), None);
}

#[test]
fn readers_share_and_writers_do_not() {
    let mut lock: Rwlock<u32, Waker> = Rwlock::new(1);
    let (poll, first) = lock.read(|w: &Waker| *w == 1, 1);
    assert_eq!(poll, ReadPoll::Granted);
    let (poll, second) = lock.read(|w: &Waker| *w == 2, 2);
    assert_eq!(poll, ReadPoll::Granted);
    let (first, second) = (first.unwrap(), second.unwrap());
    assert_eq!(*lock.access(&first), 1);

    assert!(lock.write(|w: &Waker| *w == 3, 3).is_none());
    // Only the last reader lets the writer in.
    assert_eq!(lock.unlock_read(first), None);
    assert_eq!(lock.unlock_read(second), Some(3));
    let mut writer = lock.write(|w: &Waker| *w == 3, 3).unwrap();
    *lock.access_mut(&mut writer) = 8;

    // A reader waits for the writer, and others wait for that reader.
    let (poll, guard) = lock.read(|w: &Waker| *w == 4, 4);
    assert_eq!(poll, ReadPoll::Waiting);
    assert!(guard.is_none());
    let (poll, _) = lock.read(|w: &Waker| *w == 5, 5);
    assert_eq!(poll, ReadPoll::Busy);
    assert!(lock.read_again(|w: &Waker| *w == 4, 4).is_none());
    assert_eq!(lock.unlock_write(writer), Some(4));
    let guard = lock.read_again(|w: &Waker| *w == 4, 4).unwrap();
    assert_eq!(*lock.access(&guard), 8);
    assert_eq!(lock.unlock_read(guard), None);
    assert_eq!(lock.into_inner(), 8);
}

#[test]
fn once_lock_is_set_once() {
    let mut cell: OnceLock<u32> = OnceLock::new();
    assert_eq!(cell.get(), None);
    assert_eq!(cell.get_mut(), None);
    assert_eq!(*cell.get_or_init(|| 3), 3);
    assert_eq!(*cell.get_or_init(|| 4), 3);
    // The closure is not called on an initialized cell.
    assert_eq!(*cell.get_or_init(|| unreachable!("Not called")), 3);
    assert_eq!(cell.set(5), Err(5));
    *cell.get_mut().unwrap() = 6;
    assert_eq!(cell.get(), Some(&6));

    let mut cell: OnceLock<u32> = OnceLock::default();
    assert_eq!(cell.set(5), Ok(()));
    assert_eq!(cell.get(), Some(&5));
}

/// What is stored for a core, read through a borrow.
fn read<I: Fn() -> u32>(data: &mut PerCpu<u32, I>, cpu: usize) -> u32 {
    let guard = data.borrow(cpu, 0usize);
    let value = *data.value(&guard);
    data.release(guard);
    value
}

#[test]
fn test_initialization_and_basic_access() {
    let mut data = PerCpu::new(|| 0u32);
    data.init(4); // Simulate a 4-core system

    // Act as CPU 0
    assert_eq!(read(&mut data, 0), 0);
    let mut guard = data.borrow_mut(0, 0usize);
    assert_eq!(data.replace(&mut guard, 100), 0);
    data.release(guard);
    assert_eq!(read(&mut data, 0), 100);

    // Act as CPU 3
    assert_eq!(read(&mut data, 3), 0); // Should still be the initial value
    let (_, flags) = data.with_mut(3, 7usize, |val: &mut u32| *val = 300);
    assert_eq!(flags, 7);
    let guard = data.try_borrow_mut(3, 8usize).unwrap_or_else(|_| panic!("Still borrowed"));
    assert_eq!(data.release(guard), 8);
    assert_eq!(read(&mut data, 3), 300);

    // Check CPU 0 again to ensure it wasn't affected
    assert_eq!(read(&mut data, 0), 100);
    assert_eq!(*data.get(3), 300);
    assert_eq!(*data.get_by_cpu(0), 100);
}

#[test]
fn borrows_exclude_each_other() {
    let mut data = PerCpu::new(|| 0u32);
    data.init(2);

    // Interrupts are restored to what they were before the borrow.
    let writer = data.borrow_mut(0, "irqs on");
    assert!(matches!(data.try_borrow_mut(0, "irqs off"), Err("irqs off")));
    assert!(matches!(data.try_borrow(0, "irqs off"), Err("irqs off")));
    // Other cores are not concerned.
    let other = data.try_borrow_mut(1, "irqs on").ok().unwrap();
    assert_eq!(data.release(other), "irqs on");
    assert_eq!(data.release(writer), "irqs on");

    let reader = data.try_borrow(0, "a").ok().unwrap();
    let second = data.try_borrow(0, "b").ok().unwrap();
    assert!(data.try_borrow_mut(0, "c").is_err());
    assert_eq!(data.release(reader), "a");
    assert!(data.try_borrow_mut(0, "c").is_err());
    assert_eq!(data.release(second), "b");
    assert!(data.try_borrow_mut(0, "c").is_ok());
}

#[test]
fn readers_are_counted() {
    let mut lock: RwlockState<Waker> = RwlockState::new();
    assert_eq!(lock.num_readers(), 0);
    assert_eq!(lock.poll_read(|_| false, 1), ReadPoll::Granted);
    assert_eq!(lock.poll_read(|_| false, 2), ReadPoll::Granted);
    assert_eq!(lock.num_readers(), 2);
    assert!(!lock.poll_write(|_| false, 3));
    assert_eq!(lock.release_read(), None);
    assert_eq!(lock.num_readers(), 1);
    assert_eq!(lock.release_read(), Some(3));
    assert!(lock.poll_write(|_| false, 3));
    assert_eq!(lock.poll_read(|_| false, 4), ReadPoll::Waiting);
    assert_eq!(lock.num_readers(), 0);
}

#[test]
fn senders_are_counted() {
    let (mut shared, tx, _rx) = channel::<char, Waker>();
    let other = tx.duplicate(&mut shared);
    let mut count = 0;
    shared.update(|state| {
        count = state.num_senders();
        WakeupType::Nobody
    });
    assert_eq!(count, 2);
    assert!(other.close(&mut shared).is_empty());
    shared.update(|state| {
        count = state.num_senders();
        WakeupType::Nobody
    });
    assert_eq!(count, 1);
}

#[test]
fn first_reader_can_give_up() {
    let mut lock: RwlockState<Waker> = RwlockState::new();
    assert!(lock.poll_write(|_| false, 1));
    assert_eq!(lock.poll_read(|_| false, 2), ReadPoll::Waiting);
    assert_eq!(lock.poll_read(|_| false, 3), ReadPoll::Busy);
    lock.cancel_first_reader();
    // The writer still has access, so that the next reader has to wait as well.
    assert_eq!(lock.poll_read(|_| false, 3), ReadPoll::Waiting);
    assert_eq!(lock.release_write(), Some(2));
    assert!(lock.poll_first_reader(|_| false, 3));
    assert_eq!(lock.num_readers(), 1);
}
