use std::cell::RefCell;
use std::rc::Rc;

use alone_ee::{
    CountingHandler, Event, EventEmitter, EventHandler, EventHandlerResult, Listener, Observer,
    Registrar, Subscription,
};

struct Counter {
    hits: Rc<RefCell<u32>>,
}

impl EventHandler<u32> for Counter {
    fn on_event(&mut self, ev: &mut Event<u32>, _reg: &mut Registrar<Counter>) -> EventHandlerResult {
        *self.hits.borrow_mut() += *ev.data();
        Ok(())
    }
}

#[test]
fn event_wraps_value_and_records_stop() {
    let mut ev = Event::new(42u32);
    assert_eq!(*ev.data(), 42);
    assert!(!ev.stopped());
    ev.stop();
    assert!(ev.stopped());
    assert_eq!(*ev.data(), 42);
    ev.stop();
    assert!(ev.stopped());
}

#[test]
fn listener_lifecycle() {
    let hits = Rc::new(RefCell::new(0u32));
    let mut l = Listener::new(false, Counter { hits: hits.clone() });
    assert!(l.is_active());
    let key = l.get_activation_flag();
    let _handle = Subscription::new(key);

    let mut reg = Registrar::new();
    let mut ev = Event::new(7u32);
    l.call(&mut ev, &mut reg).unwrap();
    assert_eq!(*hits.borrow(), 7);
    assert!(l.is_active());

    l.deactivate();
    assert!(!l.is_active());
    l.deactivate();
    assert!(!l.is_active());
}

#[test]
fn observer_subscribe_and_publish() {
    let hits = Rc::new(RefCell::new(0u32));
    let mut ee = EventEmitter::<u32, Counter>::new();
    let _keep = ee.subscribe(Listener::new(false, Counter { hits: hits.clone() }));
    let _gone = ee.subscribe(Listener::new(true, Counter { hits: hits.clone() }));
    ee.publish(10).unwrap();
    assert_eq!(*hits.borrow(), 20);
    assert_eq!(ee.len(), 1);
    ee.publish(1).unwrap();
    assert_eq!(*hits.borrow(), 21);
}

#[test]
fn counting_handler_counts_invocations() {
    let mut ee = EventEmitter::<&'static str, CountingHandler>::new();
    let _s = ee.on(CountingHandler::new());
    ee.emit("a").unwrap();
    ee.emit("b").unwrap();
    ee.emit("c").unwrap();
    // The counter state lives inside the registry; what is observable from
    // outside is that the armed listener stays registered and delivery keeps
    // succeeding.
    assert_eq!(ee.len(), 1);

    let mut standalone = CountingHandler::new();
    assert_eq!(standalone.count, 0);
    let mut reg: Registrar<CountingHandler> = Registrar::new();
    let mut ev = Event::new("x");
    standalone.on_event(&mut ev, &mut reg).unwrap();
    standalone.on_event(&mut ev, &mut reg).unwrap();
    assert_eq!(standalone.count, 2);
}

#[test]
fn registrar_hands_out_distinct_keys() {
    let hits = Rc::new(RefCell::new(0u32));
    let mut reg: Registrar<Counter> = Registrar::new();
    assert!(reg.can_register());
    let s1 = reg.on(Counter { hits: hits.clone() });
    let s2 = reg.once(Counter { hits: hits.clone() });
    // The handles address different activation records; cancelling one on a
    // fresh emitter touches nothing and cannot fail.
    let mut ee = EventEmitter::<u32, Counter>::new();
    s1.cancel(&mut ee);
    s2.cancel(&mut ee);
    assert!(ee.is_empty());
}
