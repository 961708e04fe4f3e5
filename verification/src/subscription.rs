use vstd::prelude::*;

use crate::event_emitter::EventEmitter;
use crate::model::cancel_step;

verus! {

/// The cancellation handle returned to a subscriber.  It holds only the key
/// of its listener's activation record, never the listener itself, so a
/// handle kept past the listener's removal (exhaustion, reset, or an earlier
/// cancellation) still cancels harmlessly: a key no record carries simply
/// deactivates nothing.
///
/// Cancellation is explicit: merely dropping the handle does *not* disarm
/// the listener — call [`Subscription::cancel`] on the emitter that issued
/// the handle.  The key is meaningful only for that emitter; handing the
/// handle to a different emitter addresses whatever record carries the same
/// number there.
pub struct Subscription {
    key: usize,
}

impl View for Subscription {
    type V = usize;

    closed spec fn view(&self) -> usize {
        self.key
    }
}

impl Subscription {
    /// Builds the handle for the activation record addressed by `shared_key`.
    pub fn new(shared_key: usize) -> (s: Self)
        ensures
            s@ == shared_key,
    {
        Subscription { key: shared_key }
    }

    /// Disarms this handle's listener in `em`, wherever it stands, and
    /// releases its handler.  Idempotent, and a silent no-op when no record
    /// carries the key any more (the listener was exhausted, swept out or
    /// reset away); cancelling can never fail.
    pub fn cancel<T, H>(&self, em: &mut EventEmitter<T, H>)
        requires
            old(em).wf(),
        ensures
            final(em).wf(),
            cancel_step(old(em)@, final(em)@, self@),
    {
        em.deactivate_key(self.key);
    }
}

} // verus!
