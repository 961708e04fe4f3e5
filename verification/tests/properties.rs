use std::cell::RefCell;
use std::rc::Rc;

use alone_ee::{Event, EventEmitter, EventHandler, EventHandlerResult, HandlerError, Registrar};

/// A handler that logs its tag on every invocation, and can be told to fail
/// a number of times, to raise the event's stop flag, or to register a fresh
/// listener from inside its own invocation.
struct Tagged {
    tag: u64,
    log: Rc<RefCell<Vec<u64>>>,
    fail_remaining: u32,
    register_tag: Option<u64>,
    raise_stop: bool,
}

impl Tagged {
    fn plain(tag: u64, log: &Rc<RefCell<Vec<u64>>>) -> Tagged {
        Tagged { tag, log: log.clone(), fail_remaining: 0, register_tag: None, raise_stop: false }
    }
}

impl EventHandler<&'static str> for Tagged {
    fn on_event(
        &mut self,
        ev: &mut Event<&'static str>,
        reg: &mut Registrar<Tagged>,
    ) -> EventHandlerResult {
        self.log.borrow_mut().push(self.tag);
        if self.raise_stop {
            ev.stop();
        }
        if let Some(t) = self.register_tag.take() {
            let _sub = reg.on(Tagged::plain(t, &self.log));
        }
        if self.fail_remaining > 0 {
            self.fail_remaining -= 1;
            return Err(HandlerError { code: self.tag });
        }
        Ok(())
    }
}

fn fresh_log() -> Rc<RefCell<Vec<u64>>> {
    Rc::new(RefCell::new(Vec::new()))
}

#[test]
fn delivery_in_registration_order() {
    let log = fresh_log();
    let mut ee = EventEmitter::<&'static str, Tagged>::new();
    let _s1 = ee.on(Tagged::plain(1, &log));
    let _s2 = ee.on(Tagged::plain(2, &log));
    let _s3 = ee.once(Tagged::plain(3, &log));
    assert_eq!(ee.len(), 3);
    ee.emit("x").unwrap();
    assert_eq!(*log.borrow(), vec![1, 2, 3]);
    assert_eq!(ee.len(), 2);
}

#[test]
fn once_fires_once_and_later_cancel_is_noop() {
    let log = fresh_log();
    let mut ee = EventEmitter::<&'static str, Tagged>::new();
    let _s1 = ee.on(Tagged::plain(1, &log));
    let s2 = ee.once(Tagged::plain(2, &log));
    ee.emit("x").unwrap();
    assert_eq!(*log.borrow(), vec![1, 2]);
    assert_eq!(ee.len(), 1);
    ee.emit("y").unwrap();
    assert_eq!(*log.borrow(), vec![1, 2, 1]);
    s2.cancel(&mut ee);
    assert_eq!(ee.len(), 1);
    ee.emit("z").unwrap();
    assert_eq!(*log.borrow(), vec![1, 2, 1, 1]);
}

#[test]
fn cancelled_listener_never_called() {
    let log = fresh_log();
    let mut ee = EventEmitter::<&'static str, Tagged>::new();
    let _s1 = ee.on(Tagged::plain(1, &log));
    let s2 = ee.on(Tagged::plain(2, &log));
    s2.cancel(&mut ee);
    ee.emit("x").unwrap();
    assert_eq!(*log.borrow(), vec![1]);
    ee.emit("y").unwrap();
    assert_eq!(*log.borrow(), vec![1, 1]);
    assert_eq!(ee.len(), 1);
}

#[test]
fn error_aborts_pass_and_preserves_the_rest() {
    let log = fresh_log();
    let mut ee = EventEmitter::<&'static str, Tagged>::new();
    let _s1 = ee.on(Tagged::plain(1, &log));
    let mut failing = Tagged::plain(2, &log);
    failing.fail_remaining = 1;
    let _s2 = ee.once(failing);
    let _s3 = ee.once(Tagged::plain(3, &log));
    let r = ee.emit("x");
    assert_eq!(r, Err(HandlerError { code: 2 }));
    assert_eq!(*log.borrow(), vec![1, 2]);
    // The failing one-shot is not disarmed by its own error, and the
    // one-shot after the failure point stays armed too.
    assert_eq!(ee.len(), 3);
    ee.emit("y").unwrap();
    assert_eq!(*log.borrow(), vec![1, 2, 1, 2, 3]);
    assert_eq!(ee.len(), 1);
    ee.emit("z").unwrap();
    assert_eq!(*log.borrow(), vec![1, 2, 1, 2, 3, 1]);
}

#[test]
fn reentrant_registration_lands_in_the_next_pass() {
    let log = fresh_log();
    let mut ee = EventEmitter::<&'static str, Tagged>::new();
    let mut chaining = Tagged::plain(1, &log);
    chaining.register_tag = Some(3);
    let _s1 = ee.on(chaining);
    ee.emit("z").unwrap();
    assert_eq!(*log.borrow(), vec![1]);
    assert_eq!(ee.len(), 2);
    ee.emit("w").unwrap();
    assert_eq!(*log.borrow(), vec![1, 1, 3]);
}

#[test]
fn reset_empties_and_outstanding_handles_are_noops() {
    let log = fresh_log();
    let mut ee = EventEmitter::<&'static str, Tagged>::new();
    let s1 = ee.on(Tagged::plain(1, &log));
    let s2 = ee.once(Tagged::plain(2, &log));
    assert_eq!(ee.len(), 2);
    ee.reset();
    assert!(ee.is_empty());
    assert_eq!(ee.len(), 0);
    s1.cancel(&mut ee);
    s2.cancel(&mut ee);
    assert!(ee.is_empty());
    // Keys are never reissued, so the stale handles cannot touch a listener
    // registered after the reset.
    let _s3 = ee.on(Tagged::plain(5, &log));
    s1.cancel(&mut ee);
    s2.cancel(&mut ee);
    assert_eq!(ee.len(), 1);
    ee.emit("x").unwrap();
    assert_eq!(*log.borrow(), vec![5]);
}

#[test]
fn scenario_persistent_and_once_pair() {
    let log = fresh_log();
    let mut ee = EventEmitter::<&'static str, Tagged>::new();
    let _a = ee.on(Tagged::plain(1, &log));
    let _b = ee.once(Tagged::plain(2, &log));
    ee.emit("x").unwrap();
    assert_eq!(*log.borrow(), vec![1, 2]);
    assert_eq!(ee.len(), 1);
    ee.emit("y").unwrap();
    assert_eq!(*log.borrow(), vec![1, 2, 1]);
    assert_eq!(log.borrow().iter().filter(|t| **t == 1).count(), 2);
    assert_eq!(log.borrow().iter().filter(|t| **t == 2).count(), 1);
}

#[test]
fn stop_flag_does_not_halt_delivery() {
    let log = fresh_log();
    let mut ee = EventEmitter::<&'static str, Tagged>::new();
    let mut stopper = Tagged::plain(1, &log);
    stopper.raise_stop = true;
    let _s1 = ee.on(stopper);
    let _s2 = ee.on(Tagged::plain(2, &log));
    ee.emit("x").unwrap();
    assert_eq!(*log.borrow(), vec![1, 2]);
}

#[test]
fn emit_with_no_listeners_is_ok() {
    let log = fresh_log();
    let mut ee = EventEmitter::<&'static str, Tagged>::new();
    assert!(ee.emit("x").is_ok());
    let s = ee.on(Tagged::plain(1, &log));
    s.cancel(&mut ee);
    assert!(ee.emit("y").is_ok());
    assert!(log.borrow().is_empty());
    assert!(ee.is_empty());
}

#[test]
fn many_listeners_each_called_once() {
    let log = fresh_log();
    let mut ee = EventEmitter::<&'static str, Tagged>::new();
    for tag in 0..100u64 {
        let _s = ee.on(Tagged::plain(tag, &log));
    }
    assert_eq!(ee.len(), 100);
    ee.emit("x").unwrap();
    let seen = log.borrow();
    assert_eq!(seen.len(), 100);
    for tag in 0..100u64 {
        assert_eq!(seen[tag as usize], tag);
    }
}
