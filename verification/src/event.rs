use vstd::prelude::*;

verus! {

/// The value delivered by one emission, together with a flag a handler may
/// raise to signal that further propagation is unwanted.  The registry
/// records the flag but does not act on it: only a handler error stops a
/// delivery pass.
pub struct Event<T> {
    message: T,
    was_stopped: bool,
}

/// The mathematical content of an [`Event`]: the carried value and the
/// propagation flag.
pub ghost struct EventView<T> {
    pub message: T,
    pub stopped: bool,
}

impl<T> View for Event<T> {
    type V = EventView<T>;

    closed spec fn view(&self) -> EventView<T> {
        EventView { message: self.message, stopped: self.was_stopped }
    }
}

impl<T> Event<T> {
    /// Wraps a value for one delivery pass; the stop flag starts lowered.
    pub fn new(message: T) -> (r: Self)
        ensures
            r@.message == message,
            !r@.stopped,
    {
        Self { message, was_stopped: false }
    }

    /// The emitted value.
    pub fn data(&self) -> (r: &T)
        ensures
            *r == self@.message,
    {
        &self.message
    }

    /// Raises the stop flag.  The value itself is untouched.
    pub fn stop(&mut self)
        ensures
            final(self)@.message == old(self)@.message,
            final(self)@.stopped,
    {
        self.was_stopped = true
    }

    /// Whether some handler has raised the stop flag.
    pub fn stopped(&self) -> (r: bool)
        ensures
            r == self@.stopped,
    {
        self.was_stopped
    }
}

} // verus!
