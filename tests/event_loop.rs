use node_loop::{
    Crypto, Fs, Js, PollEvent, Registry, Runtime, RuntimeError, Step, ThreadPoolTaskKind,
    TimerQueue,
};

fn invoked<C>(step: Step<C>) -> (usize, C, Js) {
    match step {
        Step::Invoke(h, c, v) => (h, c, v),
        Step::Wait(_) => panic!("expected a callback, the loop waits"),
        Step::Finished => panic!("expected a callback, the loop finished"),
    }
}

fn waited<C>(step: Step<C>) -> Option<u64> {
    match step {
        Step::Wait(t) => t,
        Step::Invoke(..) => panic!("expected a wait, got a callback"),
        Step::Finished => panic!("expected a wait, the loop finished"),
    }
}

fn finished<C>(step: Step<C>) -> bool {
    matches!(step, Step::Finished)
}

/// Runs every callback that is due at `now`, in order, and returns their labels.
fn run_due(rt: &mut Runtime<&'static str>, now: u64) -> Vec<&'static str> {
    let mut out = Vec::new();
    loop {
        match rt.poll_step(now) {
            Step::Invoke(_, label, _) => out.push(label),
            _ => return out,
        }
    }
}

#[test]
fn timers_fire_in_deadline_order() {
    let mut rt: Runtime<&'static str> = Runtime::new(4);
    rt.set_timeout(0, 0, "zero");
    rt.set_timeout(0, 100, "hundred");
    rt.set_timeout(0, 50, "fifty");
    assert_eq!(3, rt.pending_events());

    let (_, label, value) = invoked(rt.poll_step(0));
    assert_eq!("zero", label);
    assert_eq!(Js::Undefined, value);
    assert_eq!(Some(50), waited(rt.poll_step(0)));
    assert_eq!(Some(30), waited(rt.poll_step(20)));
    assert_eq!(vec!["fifty", "hundred"], run_due(&mut rt, 100));
    assert_eq!(0, rt.pending_events());
    assert!(finished(rt.poll_step(100)));
}

#[test]
fn late_step_drains_all_timers_in_order() {
    let mut rt: Runtime<&'static str> = Runtime::new(4);
    rt.set_timeout(0, 0, "zero");
    rt.set_timeout(0, 100, "hundred");
    rt.set_timeout(0, 50, "fifty");
    assert_eq!(vec!["zero", "fifty", "hundred"], run_due(&mut rt, 500));
    assert!(finished(rt.poll_step(500)));
}

#[test]
fn equal_deadlines_keep_registration_order() {
    let mut rt: Runtime<&'static str> = Runtime::new(4);
    rt.set_timeout(5, 10, "first");
    rt.set_timeout(10, 5, "second");
    rt.set_timeout(0, 15, "third");
    assert_eq!(vec!["first", "second", "third"], run_due(&mut rt, 15));
}

#[test]
fn fifth_task_is_refused_until_a_worker_frees_up() {
    let mut rt: Runtime<&'static str> = Runtime::new(4);
    let mut dispatched = Vec::new();
    for _ in 0..4 {
        dispatched.push(
            rt.register_event_threadpool(7u32, ThreadPoolTaskKind::Encrypt, "task").unwrap(),
        );
    }
    let workers: Vec<usize> = dispatched.iter().map(|d| d.worker).collect();
    assert_eq!(vec![3, 2, 1, 0], workers);
    let fifth = rt.register_event_threadpool(7u32, ThreadPoolTaskKind::Encrypt, "fifth");
    assert_eq!(Some(RuntimeError::NoAvailableWorker), fifth.err().map(|e| e));
    assert_eq!(4, rt.pending_events());

    let done = &dispatched[1];
    rt.on_event(PollEvent::ThreadPool(done.worker, done.callback_id, Js::Int(42)))
        .unwrap();
    let (h, label, value) = invoked(rt.poll_step(0));
    assert_eq!(done.callback_id, h);
    assert_eq!("task", label);
    assert_eq!(Js::Int(42), value);

    let fifth = rt
        .register_event_threadpool(7u32, ThreadPoolTaskKind::Encrypt, "fifth")
        .unwrap();
    assert_eq!(done.worker, fifth.worker);
    assert_eq!(ThreadPoolTaskKind::Encrypt, fifth.kind);
    assert_eq!(7, fifth.task);
}

#[test]
fn timer_fires_while_io_watch_stays_idle() {
    let mut rt: Runtime<&'static str> = Runtime::new(4);
    let io = rt.register_event_epoll("io");
    rt.set_timeout(0, 10, "timer");

    assert_eq!(Some(10), waited(rt.poll_step(0)));
    assert_eq!(Some(0), rt.get_next_timeout(10));
    let (_, label, _) = invoked(rt.poll_step(10));
    assert_eq!("timer", label);
    assert_eq!(None, waited(rt.poll_step(10)));
    assert_eq!(1, rt.pending_events());

    rt.on_event(PollEvent::Epoll(io)).unwrap();
    let (h, label, value) = invoked(rt.poll_step(20));
    assert_eq!((io, "io", Js::Undefined), (h, label, value));
    assert!(finished(rt.poll_step(20)));
}

#[test]
fn fresh_loop_finishes_at_once() {
    let mut rt: Runtime<&'static str> = Runtime::new(4);
    assert_eq!(0, rt.pending_events());
    assert_eq!(None, rt.get_next_timeout(0));
    assert!(finished(rt.poll_step(0)));
}

#[test]
fn handles_are_fresh_and_callbacks_run_once() {
    let mut rt: Runtime<&'static str> = Runtime::new(4);
    let io = rt.register_event_epoll("io");
    assert_eq!(1, io);
    let h = rt.set_timeout(0, 0, "timer");
    assert_eq!(2, h);
    assert!(rt.has_callback(h));
    let (fired, _, _) = invoked(rt.poll_step(0));
    assert_eq!(h, fired);
    assert!(!rt.has_callback(h));
    assert_eq!(1, rt.pending_events());
    assert_eq!(None, rt.run_callback().map(|(h, _, _)| h));
}

#[test]
fn completion_errors_leave_the_loop_unchanged() {
    let mut rt: Runtime<&'static str> = Runtime::new(2);
    let d = rt.register_event_threadpool((), ThreadPoolTaskKind::FileRead, "read").unwrap();
    assert_eq!(1, d.worker);
    assert_eq!(
        Err(RuntimeError::UnknownWorker),
        rt.on_event(PollEvent::ThreadPool(0, d.callback_id, Js::Undefined))
    );
    assert_eq!(
        Err(RuntimeError::UnknownWorker),
        rt.on_event(PollEvent::ThreadPool(9, d.callback_id, Js::Undefined))
    );
    assert_eq!(
        Err(RuntimeError::UnknownCallback),
        rt.on_event(PollEvent::ThreadPool(1, d.callback_id + 1, Js::Undefined))
    );
    assert_eq!(Err(RuntimeError::UnknownCallback), rt.on_event(PollEvent::Epoll(d.callback_id)));
    assert_eq!(Ok(()), rt.on_event(PollEvent::Timeout));
    assert_eq!(None, waited(rt.poll_step(0)));
    assert_eq!(1, rt.pending_events());
    assert_eq!(
        Ok(()),
        rt.on_event(PollEvent::ThreadPool(1, d.callback_id, Js::String("text".to_string())))
    );
    assert_eq!(
        Err(RuntimeError::UnknownWorker),
        rt.on_event(PollEvent::ThreadPool(1, d.callback_id, Js::Undefined))
    );
    let (_, _, value) = invoked(rt.poll_step(0));
    assert_eq!(Some("text".to_string()), value.into_string());
}

#[test]
fn timer_handles_are_not_completed_by_workers() {
    let mut rt: Runtime<&'static str> = Runtime::new(1);
    let t = rt.set_timeout(0, 50, "timer");
    let d = rt.register_event_threadpool((), ThreadPoolTaskKind::FileRead, "read").unwrap();
    assert_eq!(
        Err(RuntimeError::UnknownCallback),
        rt.on_event(PollEvent::ThreadPool(d.worker, t, Js::Undefined))
    );
}

#[test]
fn expired_timers_move_to_the_ready_queue() {
    let mut rt: Runtime<&'static str> = Runtime::new(1);
    rt.set_timeout(0, 30, "b");
    rt.set_timeout(0, 10, "a");
    rt.process_expired_timers(20);
    assert_eq!(Some(10), rt.get_next_timeout(20));
    let (_, label, _) = rt.run_callback().unwrap();
    assert_eq!("a", label);
    assert!(rt.run_callback().is_none());
}

#[test]
fn replaying_a_program_gives_the_same_results() {
    fn program() -> Vec<(usize, &'static str, Js)> {
        let mut rt: Runtime<&'static str> = Runtime::new(4);
        rt.set_timeout(0, 30, "slow");
        rt.set_timeout(0, 0, "now");
        let d = Crypto::encrypt(&mut rt, 10, "crypto").unwrap();
        let io = rt.register_event_epoll("io");
        let mut out = Vec::new();
        let mut now = 0;
        loop {
            match rt.poll_step(now) {
                Step::Invoke(h, label, v) => out.push((h, label, v)),
                Step::Wait(t) => {
                    if rt.has_callback(d.callback_id) {
                        let result = Crypto::work(d.task);
                        rt.on_event(PollEvent::ThreadPool(d.worker, d.callback_id, result))
                            .unwrap();
                    } else if rt.has_callback(io) {
                        rt.on_event(PollEvent::Epoll(io)).unwrap();
                    } else {
                        now += t.unwrap();
                    }
                }
                Step::Finished => return out,
            }
        }
    }
    let first = program();
    let second = program();
    assert_eq!(4, first.len());
    let labels: Vec<&str> = first.iter().map(|(_, l, _)| *l).collect();
    assert_eq!(vec!["now", "crypto", "io", "slow"], labels);
    assert_eq!(Js::Int(55), first[1].2);
    assert_eq!(first, second);
}

#[test]
fn timer_queue_drains_due_entries_once() {
    let mut q = TimerQueue::new();
    q.schedule(30, 3);
    q.schedule(10, 1);
    q.schedule(20, 2);
    q.schedule(40, 4);
    assert_eq!(4, q.len());
    assert_eq!(Some(10), q.peek_next_deadline());
    assert_eq!(vec![1, 2], q.drain_expired(20));
    assert_eq!(Vec::<usize>::new(), q.drain_expired(20));
    assert_eq!(vec![3, 4], q.drain_expired(u64::MAX));
    assert_eq!(None, q.peek_next_deadline());
    assert!(!q.contains_handle(3));
}

#[test]
fn crypto_work_is_fibonacci() {
    assert_eq!(Js::Int(0), Crypto::work(0));
    assert_eq!(Js::Int(1), Crypto::work(1));
    assert_eq!(Js::Int(55), Crypto::work(10));
    assert_eq!(Js::Int(12_586_269_025), Crypto::work(50));
}

#[test]
fn collaborators_dispatch_tagged_work() {
    let mut rt: Runtime<u8> = Runtime::new(2);
    let read = Fs::read(&mut rt, "test.txt".to_string(), 1).unwrap();
    assert_eq!(ThreadPoolTaskKind::FileRead, read.kind);
    assert_eq!("test.txt", read.task);
    assert_eq!(1, read.worker);
    let enc = Crypto::encrypt(&mut rt, 12, 2).unwrap();
    assert_eq!(ThreadPoolTaskKind::Encrypt, enc.kind);
    assert_eq!(0, enc.worker);
    assert_ne!(read.callback_id, enc.callback_id);
    assert_eq!(
        Some(RuntimeError::NoAvailableWorker),
        Fs::read(&mut rt, "other".to_string(), 3).err()
    );
}

#[test]
fn js_payload_accessors() {
    assert_eq!(Some("hi".to_string()), Js::String("hi".to_string()).into_string());
    assert_eq!(None, Js::Int(3).into_string());
    assert_eq!(Some(3), Js::Int(3).into_int());
    assert_eq!(None, Js::Undefined.into_int());
    assert_eq!(None, Js::String("3".to_string()).into_int());
}

#[test]
fn registry_holds_each_handle_once() {
    let mut reg: Registry<&'static str> = Registry::new();
    assert_eq!(0, reg.len());
    reg.insert(5, "five");
    reg.insert(usize::MAX, "max");
    reg.insert(0, "zero");
    assert_eq!(3, reg.len());
    assert!(reg.contains_key(usize::MAX));
    assert!(!reg.contains_key(6));
    assert_eq!("max", reg.take(usize::MAX));
    assert!(!reg.contains_key(usize::MAX));
    assert_eq!("zero", reg.take(0));
    assert_eq!("five", reg.take(5));
    assert_eq!(0, reg.len());
}

#[test]
fn fresh_handles_skip_pending_ones() {
    let mut rt: Runtime<&'static str> = Runtime::new(1);
    assert_eq!(1, rt.register_event_epoll("io one"));
    assert_eq!(2, rt.set_timeout(0, 0, "a"));
    assert_eq!(3, rt.register_event_epoll("io two"));
    let (fired, _, _) = invoked(rt.poll_step(0));
    assert_eq!(2, fired);
    assert_eq!(4, rt.set_timeout(0, 5, "b"));
    assert_eq!(3, rt.pending_events());
}

#[test]
fn completions_must_match_what_was_issued() {
    let mut rt: Runtime<&'static str> = Runtime::new(2);
    let a = rt.register_event_threadpool((), ThreadPoolTaskKind::FileRead, "a").unwrap();
    let b = rt.register_event_threadpool((), ThreadPoolTaskKind::Encrypt, "b").unwrap();
    let io = rt.register_event_epoll("io");
    assert_eq!(
        Err(RuntimeError::UnknownCallback),
        rt.on_event(PollEvent::ThreadPool(a.worker, b.callback_id, Js::Undefined))
    );
    assert_eq!(
        Err(RuntimeError::UnknownCallback),
        rt.on_event(PollEvent::ThreadPool(a.worker, io, Js::Undefined))
    );
    assert_eq!(Err(RuntimeError::UnknownCallback), rt.on_event(PollEvent::Epoll(a.callback_id)));
    assert_eq!(Ok(()), rt.on_event(PollEvent::Epoll(io)));
    assert_eq!(Err(RuntimeError::UnknownCallback), rt.on_event(PollEvent::Epoll(io)));
    assert_eq!(Ok(()), rt.on_event(PollEvent::ThreadPool(b.worker, b.callback_id, Js::Int(1))));
    assert_eq!(Ok(()), rt.on_event(PollEvent::ThreadPool(a.worker, a.callback_id, Js::Int(2))));
    let order: Vec<usize> = (0..3).map(|_| invoked(rt.poll_step(0)).0).collect();
    assert_eq!(vec![io, b.callback_id, a.callback_id], order);
    assert!(finished(rt.poll_step(0)));
}
