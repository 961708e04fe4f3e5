use vstd::prelude::*;

use crate::event::Event;
use crate::registrar::{reg_extended, Registrar};

verus! {

/// The error a handler may return from one invocation.  The registry never
/// inspects it: the first error raised during a delivery pass is handed back
/// to the caller of `emit` unchanged.
#[derive(Clone, Copy, Debug, PartialEq, Eq, Structural)]
pub struct HandlerError {
    pub code: u64,
}

/// What a handler invocation, and therefore a delivery pass, returns.
pub type EventHandlerResult = Result<(), HandlerError>;

/// The capability contract a callback must satisfy.  One invocation receives
/// the event of the emission in progress and the registry's staging area for
/// new registrations, so a handler may subscribe further listeners while a
/// delivery pass is running.
///
/// `handles` is the handler's own invocation relation: everything one
/// invocation may do to the handler's state and which results it may return
/// for which message, and `on_event` is held to it.  The delivery engine is
/// verified for an arbitrary handler type, to which `handles` is opaque: the
/// only way its proofs come by a `handles` transition is the postcondition
/// of a real `on_event` invocation, so a transition in the engine's
/// contracts means the registered handler itself was invoked, on that
/// message, and itself produced that result.  A handler type that overrides
/// the default thereby tells its own callers exactly what its invocations
/// can do.  The remaining clauses say a handler may only extend the staging
/// area through its registration methods (`reg_extended`), may read the
/// event's value but not exchange it, and may raise the stop flag but never
/// lower it.
pub trait EventHandler<T>: Sized {
    /// One invocation on `message` may turn the handler's state `pre` into
    /// `post` and return `r`.  The default admits every transition — a
    /// handler that states nothing of itself, like a closure without a
    /// contract; a handler whose callers should know more overrides it.
    open spec fn handles(pre: Self, message: T, post: Self, r: EventHandlerResult) -> bool {
        true
    }

    fn on_event(&mut self, ev: &mut Event<T>, reg: &mut Registrar<Self>) -> (r: EventHandlerResult)
        ensures
            Self::handles(*old(self), old(ev)@.message, *final(self), r),
            reg_extended(old(reg)@, final(reg)@),
            final(ev)@.message == old(ev)@.message,
            old(ev)@.stopped ==> final(ev)@.stopped,
    ;
}

/// A ready-made handler that counts its invocations and never fails.  It is
/// also the witness that the capability contract above can be met: its
/// implementation proves every `ensures` of `on_event`.
pub struct CountingHandler {
    pub count: u64,
}

impl CountingHandler {
    /// A counter that has seen nothing yet.
    pub fn new() -> (r: Self)
        ensures
            r.count == 0,
    {
        CountingHandler { count: 0 }
    }
}

impl<T> EventHandler<T> for CountingHandler {
    /// An invocation adds one to the count, saturating, and succeeds.
    open spec fn handles(pre: Self, message: T, post: Self, r: EventHandlerResult) -> bool {
        &&& post.count == (if pre.count < u64::MAX {
            pre.count + 1
        } else {
            pre.count as int
        })
        &&& r is Ok
    }

    fn on_event(&mut self, ev: &mut Event<T>, reg: &mut Registrar<Self>) -> (r:
        EventHandlerResult) {
        proof {
            crate::registrar::lemma_reg_extended_refl(reg@);
        }
        if self.count < u64::MAX {
            self.count = self.count + 1;
        }
        Ok(())
    }
}

/// The mathematical content of a [`Listener`]: its registration key, whether
/// it is one-shot, whether it is still armed, and the handler it holds — the
/// very value that was registered, so a contract over the record pins which
/// handler an invocation dispatches to.
pub ghost struct ListenerView<H> {
    pub key: usize,
    pub once: bool,
    pub active: bool,
    pub handler: Option<H>,
}

impl<H> ListenerView<H> {
    /// An armed listener always holds a handler to invoke.
    pub open spec fn wf(self) -> bool {
        self.active ==> self.handler is Some
    }

    /// The record after deactivation: disarmed, handler released.
    pub open spec fn deactivated(self) -> ListenerView<H> {
        ListenerView { key: self.key, once: self.once, active: false, handler: None }
    }
}

/// `s` with every record keyed `k` deactivated and every other record as it
/// was.
pub open spec fn cancel_in<H>(s: Seq<ListenerView<H>>, k: usize) -> Seq<ListenerView<H>> {
    s.map_values(|l: ListenerView<H>| if l.key == k { l.deactivated() } else { l })
}

/// Some record in `s` carries key `k`.
pub open spec fn has_key<H>(s: Seq<ListenerView<H>>, k: usize) -> bool {
    exists|i: int| 0 <= i < s.len() && (#[trigger] s[i]).key == k
}

/// No two records in `s` share a key.
pub open spec fn keys_distinct<H>(s: Seq<ListenerView<H>>) -> bool {
    forall|i: int, j: int|
        #![trigger s[i], s[j]]
        0 <= i < j < s.len() ==> s[i].key != s[j].key
}

/// Every record in `s` is well formed and keyed strictly below `bound`.
pub open spec fn entries_ok<H>(s: Seq<ListenerView<H>>, bound: usize) -> bool {
    forall|i: int| 0 <= i < s.len() ==> (#[trigger] s[i]).wf() && s[i].key < bound
}

/// How many records in `s` are armed.
pub open spec fn count_active<H>(s: Seq<ListenerView<H>>) -> int
    decreases s.len(),
{
    if s.len() == 0 {
        0
    } else {
        count_active(s.drop_last()) + (if s.last().active {
            1int
        } else {
            0int
        })
    }
}

/// Extending the counted prefix by one record adds one exactly when that
/// record is armed.
pub proof fn lemma_count_active_take_step<H>(s: Seq<ListenerView<H>>, i: int)
    requires
        0 <= i < s.len(),
    ensures
        count_active(s.take(i + 1)) == count_active(s.take(i)) + (if s[i].active {
            1int
        } else {
            0int
        }),
{
    assert(s.take(i + 1).drop_last() =~= s.take(i));
    assert(s.take(i + 1).last() == s[i]);
}

/// At most every record is armed.
pub proof fn lemma_count_active_le_len<H>(s: Seq<ListenerView<H>>)
    ensures
        0 <= count_active(s) <= s.len(),
    decreases s.len(),
{
    if s.len() > 0 {
        lemma_count_active_le_len(s.drop_last());
    }
}

/// One registered callback: the handler, the one-shot flag, and the
/// activation state the registry and the subscriber's handle agree on.  The
/// handler is released as soon as the listener is deactivated, so captured
/// resources do not outlive a cancellation.
pub struct Listener<H> {
    handler: Option<H>,
    pub once: bool,
    active: bool,
    key: usize,
}

impl<H> View for Listener<H> {
    type V = ListenerView<H>;

    closed spec fn view(&self) -> ListenerView<H> {
        ListenerView {
            key: self.key,
            once: self.once,
            active: self.active,
            handler: self.handler,
        }
    }
}

impl<H> Listener<H> {
    /// A freshly built listener: armed, holding exactly the given handler,
    /// not yet keyed (the registry assigns the key at registration).
    pub fn new(once: bool, handler: H) -> (r: Self)
        ensures
            r@ == (ListenerView { key: 0, once, active: true, handler: Some(handler) }),
    {
        Self { once, handler: Some(handler), active: true, key: 0 }
    }

    /// Invokes the held handler on the event — the `handles` transition in
    /// the postcondition says the handler itself ran, on the event's value,
    /// and that `r` is its own result, propagated without interpretation —
    /// and hands it the staging area for re-registration.  The listener's
    /// flags are unchanged: in particular a failing invocation does not
    /// disarm it.
    pub fn call<T>(&mut self, ev: &mut Event<T>, reg: &mut Registrar<H>) -> (r: EventHandlerResult) where
        H: EventHandler<T>,
        requires
            old(self)@.active,
            old(self)@.wf(),
        ensures
            final(self)@.key == old(self)@.key,
            final(self)@.once == old(self)@.once,
            final(self)@.active == old(self)@.active,
            final(self)@.handler is Some,
            H::handles(
                old(self)@.handler.unwrap(),
                old(ev)@.message,
                final(self)@.handler.unwrap(),
                r,
            ),
            reg_extended(old(reg)@, final(reg)@),
            final(ev)@.message == old(ev)@.message,
            old(ev)@.stopped ==> final(ev)@.stopped,
    {
        match &mut self.handler {
            Some(h) => h.on_event(ev, reg),
            None => {
                // An armed listener holds its handler, so this arm is dead.
                proof {
                    assert(false);
                }
                Ok(())
            },
        }
    }

    /// Whether the listener is still armed: not yet cancelled, exhausted or
    /// swept away by a reset.
    pub fn is_active(&self) -> (r: bool)
        ensures
            r == self@.active,
    {
        self.active
    }

    /// The key under which this listener's activation state is addressed; a
    /// [`crate::subscription::Subscription`] built from it can disarm the
    /// listener later.
    pub fn get_activation_flag(&self) -> (k: usize)
        ensures
            k == self@.key,
    {
        self.key
    }

    /// Disarms the listener and releases its handler at once, so captured
    /// resources are freed as soon as the registration is cancelled.
    /// Idempotent.
    pub fn deactivate(&mut self)
        ensures
            final(self)@ == old(self)@.deactivated(),
    {
        self.active = false;
        self.handler = None;
    }

    /// Whether the listener is one-shot.
    pub fn is_once(&self) -> (r: bool)
        ensures
            r == self@.once,
    {
        self.once
    }

    /// Keys the listener; used by the registry when it accepts the
    /// registration.
    pub(crate) fn set_key(&mut self, k: usize)
        ensures
            final(self)@ == (ListenerView {
                key: k,
                once: old(self)@.once,
                active: old(self)@.active,
                handler: old(self)@.handler,
            }),
    {
        self.key = k;
    }
}

/// Deactivates every listener in `v` keyed `k` (at most one, wherever keys
/// are unique) and leaves all the others exactly as they were.
pub(crate) fn deactivate_key_in<H>(v: &mut Vec<Listener<H>>, k: usize)
    ensures
        final(v)@.len() == old(v)@.len(),
        forall|i: int|
            0 <= i < old(v)@.len() ==> (#[trigger] final(v)@[i])@ == (if old(v)@[i]@.key == k {
                old(v)@[i]@.deactivated()
            } else {
                old(v)@[i]@
            }),
{
    let ghost v0 = v@;
    let mut work: Vec<Listener<H>> = Vec::new();
    core::mem::swap(&mut work, v);
    let ghost total = v0.len() as int;
    while work.len() > 0
        invariant
            work@.len() <= total,
            total == v0.len(),
            forall|i: int|
                0 <= i < work@.len() ==> #[trigger] work@[i] == v0[total - work@.len() + i],
            v@.len() == total - work@.len(),
            forall|i: int|
                0 <= i < v@.len() ==> (#[trigger] v@[i])@ == (if v0[i]@.key == k {
                    v0[i]@.deactivated()
                } else {
                    v0[i]@
                }),
        decreases work@.len(),
    {
        let ghost q = total - work@.len();
        let mut l = work.remove(0);
        proof {
            assert(l == v0[q]);
        }
        if l.get_activation_flag() == k {
            l.deactivate();
        }
        v.push(l);
    }
}

} // verus!
