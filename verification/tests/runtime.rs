use orchidlang::asynch::{after_poll, InfiniteBlock, MessagePort, Microtasks, PollEvent, YieldStep};
use orchidlang::scheduler::{CancelFlag, NextItem, SealedOrTaken, SharedResource, SharedState};
use orchidlang::stdlib::{gen_resolv, refer, ExitStatus, OrchidPanic, RefEqual, RuntimeError, StdConfig, TYPE_KEY};
use std::sync::atomic::AtomicUsize;
use orchidlang::parsed::Clause;
use orchidlang::lexer::PType;

type Res = SharedResource<u32, &'static str, &'static str>;

#[test]
fn cancel_flag_is_single_fire() {
    let flag = CancelFlag::new();
    assert!(!flag.is_cancelled());
    let copy = flag.clone();
    copy.cancel();
    assert!(flag.is_cancelled());
    flag.cancel();
    assert!(flag.is_cancelled());
}

#[test]
fn free_resource_runs_an_operation_at_once() {
    let mut r: Res = SharedResource::wrap(7);
    assert_eq!(r.state(), SharedState::Free);
    match r.schedule("op") {
        Ok((_, Some((value, op)))) => {
            assert_eq!(value, 7);
            assert_eq!(op, "op");
        },
        other => panic!("{other:?}"),
    }
    assert_eq!(r.state(), SharedState::Busy);
}

#[test]
fn operations_wait_in_order() {
    let mut r: Res = SharedResource::wrap(1);
    assert!(matches!(r.schedule("a"), Ok((_, Some(_)))));
    assert!(matches!(r.schedule("b"), Ok((_, None))));
    assert!(matches!(r.schedule("c"), Ok((_, None))));
    assert!(matches!(r.finish(2), NextItem::Run(2, "b", _)));
    assert!(matches!(r.finish(3), NextItem::Run(3, "c", _)));
    assert!(matches!(r.finish(4), NextItem::Idle));
    assert_eq!(r.state(), SharedState::Free);
    assert_eq!(r.take(), Some(4));
}

#[test]
fn seal_waits_for_the_queue() {
    let mut r: Res = SharedResource::wrap(1);
    assert!(matches!(r.schedule("a"), Ok((_, Some(_)))));
    assert!(matches!(r.schedule("b"), Ok((_, None))));
    assert!(matches!(r.seal("s"), Ok(None)));
    assert_eq!(r.state(), SharedState::Sealed);
    assert_eq!(r.schedule("late").unwrap_err(), SealedOrTaken);
    assert_eq!(r.seal("again").unwrap_err(), SealedOrTaken);
    assert!(matches!(r.finish(2), NextItem::Run(2, "b", _)));
    assert!(matches!(r.finish(3), NextItem::Seal(3, "s")));
    assert_eq!(r.state(), SharedState::Taken);
}

#[test]
fn cancelled_operations_are_skipped() {
    let mut r: Res = SharedResource::wrap(1);
    assert!(matches!(r.schedule("a"), Ok((_, Some(_)))));
    let b = match r.schedule("b") {
        Ok((flag, None)) => flag,
        other => panic!("{other:?}"),
    };
    assert!(matches!(r.schedule("c"), Ok((_, None))));
    assert!(matches!(r.seal("s"), Ok(None)));
    b.cancel();
    assert!(r.head_cancelled());
    assert!(matches!(r.finish(2), NextItem::Cancelled(2, "b")));
    assert_eq!(r.state(), SharedState::Sealed);
    assert!(!r.head_cancelled());
    assert!(matches!(r.finish(3), NextItem::Run(3, "c", _)));
    assert!(matches!(r.finish(4), NextItem::Seal(4, "s")));
    assert_eq!(r.state(), SharedState::Taken);
}

#[test]
fn finish_with_a_known_cancellation() {
    let mut r: Res = SharedResource::wrap(1);
    assert!(matches!(r.schedule("a"), Ok((_, Some(_)))));
    assert!(matches!(r.schedule("b"), Ok((_, None))));
    assert!(matches!(r.finish_with(2, true), NextItem::Cancelled(2, "b")));
    assert!(matches!(r.finish_with(3, true), NextItem::Idle));
    assert_eq!(r.take(), Some(3));
}

#[test]
fn sealing_a_free_resource_consumes_it_at_once() {
    let mut r: Res = SharedResource::wrap(5);
    match r.seal("s") {
        Ok(Some((value, s))) => {
            assert_eq!(value, 5);
            assert_eq!(s, "s");
        },
        other => panic!("{other:?}"),
    }
    assert_eq!(r.state(), SharedState::Taken);
    assert_eq!(r.take(), None);
}

#[test]
fn take_and_untake() {
    let mut r: Res = SharedResource::wrap(9);
    assert_eq!(r.take(), Some(9));
    assert_eq!(r.state(), SharedState::Taken);
    assert_eq!(r.schedule("x").unwrap_err(), SealedOrTaken);
    assert_eq!(r.untake(10), Ok(()));
    assert_eq!(r.state(), SharedState::Free);
    assert_eq!(r.untake(11), Err(11));
    assert_eq!(r.take(), Some(10));
}

#[test]
fn exit_status_codes() {
    assert_eq!(ExitStatus::Success.code(), 0);
    assert_eq!(ExitStatus::Failure.code(), 1);
    assert!(ExitStatus::Success.is_success());
    assert!(!ExitStatus::Failure.is_success());
}

#[test]
fn runtime_error_message() {
    let e = RuntimeError::ext("no such file".to_string(), "reading a file");
    assert_eq!(e.describe(), "Error while reading a file: no such file");
    let r: Result<u8, RuntimeError> = RuntimeError::fail("x".to_string(), "y");
    assert_eq!(r.unwrap_err().describe(), "Error while y: x");
}

#[test]
fn panic_and_block_messages() {
    assert_eq!(OrchidPanic("boom".to_string()).describe(), "Orchid code panicked: boom");
    assert!(InfiniteBlock.describe().starts_with("User code yielded"));
}

#[test]
fn std_config_defaults_to_pure() {
    assert!(!StdConfig::default().impure);
}

#[test]
fn references_to_constants() {
    assert_eq!(refer("std::string::convert").iter(), vec!["std", "string", "convert"]);
    assert_eq!(refer("").iter(), vec![""]);
    let e = gen_resolv("std::conv::to_string");
    match &e.value {
        Clause::S(PType::Par, v) => {
            assert_eq!(v.len(), 2);
            match (&v[0].value, &v[1].value) {
                (Clause::Name(f), Clause::Name(x)) => {
                    assert_eq!(f.iter(), vec!["std", "protocol", "resolve"]);
                    assert_eq!(x.iter(), vec!["std", "conv", "to_string", TYPE_KEY]);
                },
                other => panic!("{other:?}"),
            }
        },
        other => panic!("{other:?}"),
    }
}

#[test]
fn message_port_sends() {
    let (tx, rx) = std::sync::mpsc::channel::<u32>();
    let mut port = MessagePort(tx);
    port.send(3);
    port.send(4);
    assert_eq!(rx.recv().unwrap(), 3);
    assert_eq!(rx.recv().unwrap(), 4);
    drop(rx);
    port.send(5);
}

#[test]
fn yield_decisions_after_polling() {
    assert!(matches!(after_poll::<u8, &str>(None), YieldStep::Block));
    assert!(matches!(after_poll::<u8, &str>(Some(PollEvent::Once(1))), YieldStep::Resume(1)));
    assert!(matches!(after_poll::<u8, &str>(Some(PollEvent::Recurring(2))), YieldStep::Resume(2)));
    assert!(matches!(after_poll::<u8, &str>(Some(PollEvent::Event("m"))), YieldStep::Dispatch("m")));
}

#[test]
fn microtasks_run_in_order_one_per_yield() {
    let mut m: Microtasks<u8> = Microtasks::new();
    assert_eq!(m.start(), None);
    assert!(!m.handled(vec![]));
    assert_eq!(m.start(), None);
    assert!(m.handled(vec![1, 2, 3]));
    assert_eq!(m.start(), Some(1));
    assert_eq!(m.start(), Some(2));
    assert_eq!(m.start(), Some(3));
    assert_eq!(m.start(), None);
}

#[test]
fn ref_equal_equals_only_its_copies() {
    let counter = AtomicUsize::new(0);
    let a = RefEqual::new(&counter);
    let b = RefEqual::new(&counter);
    let a2 = a;
    assert_eq!(a, a2);
    assert_ne!(a, b);
    assert_eq!(a.id(), 0);
    assert_eq!(b.id(), 1);
    assert!(a < b);
}

#[test]
fn rotate_skips_cancelled_operations_through_their_clean_up() {
    let mut r: Res = SharedResource::wrap(1);
    assert!(matches!(r.schedule("a"), Ok((_, Some(_)))));
    let b = match r.schedule("b") {
        Ok((flag, None)) => flag,
        other => panic!("{other:?}"),
    };
    let c = match r.schedule("c") {
        Ok((flag, None)) => flag,
        other => panic!("{other:?}"),
    };
    assert!(matches!(r.schedule("d"), Ok((_, None))));
    b.cancel();
    c.cancel();
    let clean_up = |t: u32, op: &'static str| (t + 10, vec![op]);
    let (next, events) = r.rotate(2, clean_up);
    assert!(matches!(next, NextItem::Run(22, "d", _)));
    assert_eq!(events, vec!["b", "c"]);
    let (next, events) = r.rotate(5, clean_up);
    assert!(matches!(next, NextItem::Idle));
    assert!(events.is_empty());
    assert_eq!(r.take(), Some(5));
}

#[test]
fn rotate_ends_with_the_seal_when_all_waiting_operations_were_cancelled() {
    let mut r: Res = SharedResource::wrap(1);
    assert!(matches!(r.schedule("a"), Ok((_, Some(_)))));
    let b = match r.schedule("b") {
        Ok((flag, None)) => flag,
        other => panic!("{other:?}"),
    };
    assert!(matches!(r.seal("s"), Ok(None)));
    b.cancel();
    let (next, events) = r.rotate(2, |t: u32, op: &'static str| (t * 3, vec![op]));
    assert!(matches!(next, NextItem::Seal(6, "s")));
    assert_eq!(events, vec!["b"]);
    assert_eq!(r.state(), SharedState::Taken);
}

#[test]
fn the_next_operation_gets_its_own_flag() {
    let mut r: Res = SharedResource::wrap(1);
    assert!(matches!(r.schedule("a"), Ok((_, Some(_)))));
    let b = match r.schedule("b") {
        Ok((flag, None)) => flag,
        other => panic!("{other:?}"),
    };
    let handed = match r.finish(2) {
        NextItem::Run(2, "b", flag) => flag,
        _ => panic!("b runs next"),
    };
    assert!(!handed.is_cancelled());
    b.cancel();
    assert!(handed.is_cancelled());
}

#[test]
fn ref_equal_compares_by_id() {
    let counter = AtomicUsize::new(5);
    let a = RefEqual::new(&counter);
    let b = RefEqual::new(&counter);
    assert_eq!(a.partial_cmp(&b), Some(std::cmp::Ordering::Less));
    assert_eq!(a.partial_cmp(&a.clone()), Some(std::cmp::Ordering::Equal));
    assert_eq!(a.cmp(&a.clone()), std::cmp::Ordering::Equal);
    assert_eq!(a.clone().id(), a.id());
}
