use vstd::prelude::*;

use crate::listener::{EventHandler, EventHandlerResult, Listener};
use crate::subscription::Subscription;

verus! {

/// The capability contract of a listener registry: it accepts built
/// listeners and delivers published values.  Implementations refine these
/// signatures with their exact delivery contracts; the two spec functions
/// name the implementation's internal invariant and its capacity to key one
/// more registration.
pub trait Observer<T, H: EventHandler<T>>: Sized {
    /// The registry's internal invariant.
    spec fn registry_wf(&self) -> bool;

    /// Whether one more registration can be keyed.
    spec fn accepts(&self) -> bool;

    /// Stores a freshly built listener and returns the handle that can
    /// cancel it.
    fn subscribe(&mut self, listener: Listener<H>) -> (s: Subscription)
        requires
            old(self).registry_wf(),
            old(self).accepts(),
            listener@.active,
            listener@.wf(),
        ensures
            final(self).registry_wf(),
    ;

    /// Delivers `message` to the armed listeners in registration order,
    /// stopping at the first handler error, which is returned unchanged.
    fn publish(&mut self, message: T) -> (r: EventHandlerResult)
        requires
            old(self).registry_wf(),
        ensures
            final(self).registry_wf(),
    ;
}

} // verus!
