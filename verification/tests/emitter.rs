use std::cell::RefCell;
use std::rc::Rc;

use alone_ee::{Event, EventEmitter, EventHandler, EventHandlerResult, Registrar};

#[derive(Debug, PartialEq)]
struct SomeEvent {
    pub ev: u32,
    pub txt: &'static str,
}

struct Recorder {
    fired: Rc<RefCell<Option<Rc<SomeEvent>>>>,
}

impl EventHandler<Rc<SomeEvent>> for Recorder {
    fn on_event(
        &mut self,
        ev: &mut Event<Rc<SomeEvent>>,
        _reg: &mut Registrar<Recorder>,
    ) -> EventHandlerResult {
        *self.fired.borrow_mut() = Some(Rc::clone(ev.data()));
        Ok(())
    }
}

#[test]
fn test_ee() {
    let mut ee = EventEmitter::<Rc<SomeEvent>, Recorder>::new();

    let fired_ev: Rc<RefCell<Option<Rc<SomeEvent>>>> = Rc::new(RefCell::new(Option::None));

    let subs1 = ee.on(Recorder { fired: fired_ev.clone() });

    let subs2 = ee.on(Recorder { fired: fired_ev.clone() });

    assert!(fired_ev.borrow().is_none());

    ee.emit(Rc::new(SomeEvent { ev: 123, txt: "hello" })).unwrap();

    assert!(fired_ev.borrow().is_some());

    assert_eq!(ee.is_empty(), false);

    subs1.cancel(&mut ee);
    drop(subs1);

    assert_eq!(ee.is_empty(), false);

    if let Some(ev) = fired_ev.borrow().clone() {
        assert_eq!(ev.ev, 123);
    }

    ee.emit(Rc::new(SomeEvent { ev: 333, txt: "world" })).unwrap();

    if let Some(ev) = fired_ev.borrow().clone() {
        assert_eq!(ev.ev, 333);
    }

    let subs3 = ee.once(Recorder { fired: fired_ev.clone() });

    assert_eq!(ee.is_empty(), false);

    ee.emit(Rc::new(SomeEvent { ev: 444, txt: "world" })).unwrap();

    if let Some(ev) = fired_ev.borrow().clone() {
        assert_eq!(ev.ev, 444);
    }

    subs2.cancel(&mut ee);
    drop(subs2);

    ee.emit(Rc::new(SomeEvent { ev: 555, txt: "world" })).unwrap();

    if let Some(ev) = fired_ev.borrow().clone() {
        assert_eq!(ev.ev, 444);
    }

    assert_eq!(ee.is_empty(), true);

    ee.reset();

    assert_eq!(ee.is_empty(), true);

    drop(ee);

    drop(subs3);
}
