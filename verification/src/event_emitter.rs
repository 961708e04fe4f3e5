use core::marker::PhantomData;
use vstd::prelude::*;

use crate::event::Event;
use crate::listener::{
    cancel_in, count_active, deactivate_key_in, entries_ok, lemma_count_active_le_len,
    lemma_count_active_take_step, EventHandler, EventHandlerResult, HandlerError, Listener,
    ListenerView,
};
use crate::model::{
    active_part, active_upto, calls_upto, cancel_step, em_wf, emit_step,
    lemma_active_upto_update_beyond, lemma_cancel_preserves_wf, lemma_emit_preserves_wf,
    lemma_register_preserves_wf, lemma_reset_preserves_wf, pass_calls, register_step, reset_step,
    walk_at, walk_rel, CallRecord, EmView, PassRecord,
};
use crate::observer::Observer;
use crate::registrar::{
    lemma_reg_extended_refl, lemma_reg_extended_trans, reg_extended, RegView, Registrar,
};
use crate::subscription::Subscription;

verus! {

/// The registry and delivery engine.  It owns every listener record: the
/// merged sequence a delivery pass walks, and a staging area for
/// registrations made while a pass is running, folded in when the next pass
/// begins.  Disarmed records are swept out together with delivery, not at
/// cancellation time.
pub struct EventEmitter<T, H> {
    listeners: Vec<Listener<H>>,
    reg: Registrar<H>,
    deliveries: Ghost<Seq<PassRecord<T>>>,
    _event: PhantomData<T>,
}

impl<T, H> View for EventEmitter<T, H> {
    type V = EmView<T, H>;

    closed spec fn view(&self) -> EmView<T, H> {
        EmView {
            main: self.listeners@.map_values(|l: Listener<H>| l@),
            pending: self.reg@.pending,
            next_id: self.reg@.next_id,
            deliveries: self.deliveries@,
        }
    }
}

impl<T, H> EventEmitter<T, H> {
    /// The emitter's internal invariant; every public operation preserves
    /// it.
    pub open spec fn wf(&self) -> bool {
        em_wf(self@)
    }

    /// An empty registry: no listeners, no staged registrations, no keys
    /// handed out, nothing delivered.
    pub fn new() -> (r: Self)
        ensures
            r.wf(),
            r@.main.len() == 0,
            r@.pending.len() == 0,
            r@.next_id == 0,
            r@.deliveries.len() == 0,
    {
        let r = EventEmitter {
            listeners: Vec::new(),
            reg: Registrar::new(),
            deliveries: Ghost(Seq::empty()),
            _event: PhantomData,
        };
        proof {
            assert(r@.main =~= Seq::<ListenerView<H>>::empty());
        }
        r
    }

    /// Registers a persistent listener for exactly `handler` and returns the
    /// handle that can cancel it.  The registration is staged: it takes
    /// effect with the next delivery pass, never one already in progress.
    pub fn on(&mut self, handler: H) -> (s: Subscription)
        requires
            old(self).wf(),
            old(self)@.next_id < usize::MAX,
        ensures
            final(self).wf(),
            register_step(old(self)@, final(self)@, false, s@, handler),
    {
        let s = self.reg.on(handler);
        proof {
            lemma_register_preserves_wf(old(self)@, self@, false, s@, handler);
        }
        s
    }

    /// Registers a one-shot listener for exactly `handler`: it is disarmed
    /// right after its first successful invocation.
    pub fn once(&mut self, handler: H) -> (s: Subscription)
        requires
            old(self).wf(),
            old(self)@.next_id < usize::MAX,
        ensures
            final(self).wf(),
            register_step(old(self)@, final(self)@, true, s@, handler),
    {
        let s = self.reg.once(handler);
        proof {
            lemma_register_preserves_wf(old(self)@, self@, true, s@, handler);
        }
        s
    }

    /// Whether one more registration can still be keyed; `on`, `once` and
    /// `subscribe` ask for that.
    pub fn can_register(&self) -> (r: bool)
        ensures
            r == (self@.next_id < usize::MAX),
    {
        self.reg.can_register()
    }

    /// How many listeners are currently armed, wherever they stand.
    pub fn len(&self) -> (n: usize)
        requires
            self.wf(),
        ensures
            n as int == count_active(self@.main) + count_active(self@.pending),
    {
        let mut c: usize = 0;
        let mut i: usize = 0;
        while i < self.listeners.len()
            invariant
                i <= self.listeners@.len(),
                c <= i,
                c as int == count_active(self@.main.take(i as int)),
            decreases self.listeners@.len() - i,
        {
            proof {
                lemma_count_active_take_step(self@.main, i as int);
                assert(self@.main[i as int] == self.listeners@[i as int]@);
            }
            if self.listeners[i].is_active() {
                c = c + 1;
            }
            i = i + 1;
        }
        proof {
            assert(self@.main.take(self.listeners@.len() as int) =~= self@.main);
            lemma_count_active_le_len(self@.main);
            lemma_count_active_le_len(self@.pending);
        }
        let c2 = self.reg.active_count();
        c + c2
    }

    /// Whether no listener record exists at all, armed or not.
    pub fn is_empty(&self) -> (r: bool)
        ensures
            r == (self@.main.len() == 0 && self@.pending.len() == 0),
    {
        self.listeners.len() == 0 && self.reg.pending_count() == 0
    }

    /// Drops every listener record at once.  The key counter is kept, so
    /// every outstanding subscription's later cancellation stays harmless.
    pub fn reset(&mut self)
        ensures
            final(self).wf(),
            reset_step(old(self)@, final(self)@),
    {
        self.listeners.clear();
        self.reg.clear_pending();
        proof {
            lemma_reset_preserves_wf(old(self)@, self@);
        }
    }

    /// Disarms the record keyed `k`, wherever it stands; used by the
    /// cancellation handles.
    pub(crate) fn deactivate_key(&mut self, k: usize)
        requires
            old(self).wf(),
        ensures
            final(self).wf(),
            cancel_step(old(self)@, final(self)@, k),
    {
        deactivate_key_in(&mut self.listeners, k);
        self.reg.deactivate_key(k);
        proof {
            assert(self@.main =~= cancel_in(old(self)@.main, k));
            lemma_cancel_preserves_wf(old(self)@, self@, k);
        }
    }

    /// Folds the staged registrations into the walked sequence, in
    /// registration order, at the start of a delivery pass.
    fn merge_pending(&mut self)
        ensures
            final(self)@.main == old(self)@.main + old(self)@.pending,
            final(self)@.pending.len() == 0,
            final(self)@.next_id == old(self)@.next_id,
            final(self)@.deliveries == old(self)@.deliveries,
    {
        let ghost main0 = self@.main;
        let ghost pend0 = self@.pending;
        let ghost nid0 = self@.next_id;
        let ghost dels0 = self@.deliveries;
        let mut incoming = self.reg.take_pending();
        while incoming.len() > 0
            invariant
                incoming@.len() <= pend0.len(),
                forall|i: int|
                    0 <= i < incoming@.len() ==> (#[trigger] incoming@[i])@ == pend0[pend0.len()
                        - incoming@.len() + i],
                self.listeners@.len() == main0.len() + pend0.len() - incoming@.len(),
                forall|i: int|
                    0 <= i < self.listeners@.len() ==> (#[trigger] self.listeners@[i])@ == (main0
                        + pend0)[i],
                self.reg@.pending.len() == 0,
                self.reg@.next_id == nid0,
                self.deliveries@ == dels0,
            decreases incoming@.len(),
        {
            let l = incoming.remove(0);
            self.listeners.push(l);
        }
        proof {
            assert(self@.main =~= main0 + pend0);
        }
    }
}

impl<T, H: EventHandler<T>> EventEmitter<T, H> {
    /// Delivers `message` to every armed listener in registration order and
    /// returns the first handler error, if any, unchanged: `emit_step` ties
    /// the result to the failing invocation's own.
    pub fn emit(&mut self, message: T) -> (r: EventHandlerResult)
        requires
            old(self).wf(),
        ensures
            final(self).wf(),
            r is Ok ==> emit_step(
                old(self)@,
                final(self)@,
                old(self)@.merged().len() as int,
                message,
                r,
            ),
            exists|p: int| #[trigger] emit_step(old(self)@, final(self)@, p, message, r),
    {
        self.publish(message)
    }
}

impl<T, H: EventHandler<T>> Observer<T, H> for EventEmitter<T, H> {
    open spec fn registry_wf(&self) -> bool {
        self.wf()
    }

    open spec fn accepts(&self) -> bool {
        self@.next_id < usize::MAX
    }

    /// Stages a built listener, handler and all, under a fresh key.
    fn subscribe(&mut self, listener: Listener<H>) -> (s: Subscription)
        ensures
            final(self)@.main == old(self)@.main,
            final(self)@.pending == old(self)@.pending.push(
                ListenerView {
                    key: old(self)@.next_id,
                    once: listener@.once,
                    active: true,
                    handler: listener@.handler,
                },
            ),
            final(self)@.next_id == old(self)@.next_id + 1,
            final(self)@.deliveries == old(self)@.deliveries,
            s@ == old(self)@.next_id,
    {
        let ghost once = listener@.once;
        let ghost h = listener@.handler;
        let s = self.reg.attach(listener);
        proof {
            assert(register_step(old(self)@, self@, once, s@, h.unwrap()));
            lemma_register_preserves_wf(old(self)@, self@, once, s@, h.unwrap());
        }
        s
    }

    /// The delivery pass.  It folds the staged registrations in, walks the
    /// merged sequence once, invokes each armed handler on the event — the
    /// `walk_at` clauses of `emit_step` bind every invocation to a real
    /// transition of the registered handler, on the emitted value — disarms
    /// a one-shot right after a successful invocation, stops walking at the
    /// first error, which it returns unchanged without disarming the failing
    /// listener, and finally sweeps every disarmed record out.
    fn publish(&mut self, message: T) -> (r: EventHandlerResult)
        ensures
            r is Ok ==> emit_step(
                old(self)@,
                final(self)@,
                old(self)@.merged().len() as int,
                message,
                r,
            ),
            exists|p: int| #[trigger] emit_step(old(self)@, final(self)@, p, message, r),
    {
        let ghost pre = self@;
        let ghost x = message;
        self.merge_pending();
        let ghost m = self@.main;
        let ghost n0 = self@.next_id;
        let ghost dels0 = self@.deliveries;
        let ghost total = m.len() as int;
        proof {
            assert(m == pre.merged());
            assert(entries_ok(m, n0)) by {
                assert forall|i: int| 0 <= i < m.len() implies (#[trigger] m[i]).wf() && m[i].key
                    < n0 by {
                    if i < pre.main.len() {
                        assert(m[i] == pre.main[i]);
                    } else {
                        assert(m[i] == pre.pending[i - pre.main.len()]);
                    }
                }
            }
        }
        let mut ev = Event::new(message);
        let mut work: Vec<Listener<H>> = Vec::new();
        core::mem::swap(&mut work, &mut self.listeners);
        let mut failure: Option<HandlerError> = None;
        let ghost mut invoked: Seq<CallRecord> = Seq::empty();
        let ghost mut p: int = total;
        let ghost mut res_g: EventHandlerResult = Ok(());
        let ghost mut m2: Seq<ListenerView<H>> = m;
        proof {
            assert(self.reg@.pending =~= Seq::<ListenerView<H>>::empty());
            assert(self.reg@ == (RegView::<H> { pending: Seq::empty(), next_id: n0 }));
            lemma_reg_extended_refl(self.reg@);
        }
        while work.len() > 0
            invariant
                total == m.len(),
                work@.len() <= total,
                entries_ok(m, n0),
                forall|i: int|
                    0 <= i < work@.len() ==> (#[trigger] work@[i])@ == m[total - work@.len() + i],
                m2.len() == m.len(),
                forall|t: int| total - work@.len() <= t < total ==> #[trigger] m2[t] == m[t],
                forall|t: int|
                    0 <= t < total - work@.len() ==> #[trigger] walk_at(m, m2, p, x, res_g, t),
                self.listeners@.len() == active_upto(m2, total - work@.len()).len(),
                forall|i: int|
                    0 <= i < self.listeners@.len() ==> (#[trigger] self.listeners@[i])@
                        == active_upto(m2, total - work@.len())[i],
                0 <= p <= total,
                failure is None ==> p == total && res_g == Ok::<(), HandlerError>(())
                    && invoked == calls_upto(m, total - work@.len()),
                failure is Some ==> p < total - work@.len() && m[p].active && res_g == Err::<
                    (),
                    HandlerError,
                >(failure.unwrap()) && invoked == pass_calls(m, p, res_g),
                failure is Some <==> res_g is Err,
                ev@.message == x,
                reg_extended(RegView { pending: Seq::empty(), next_id: n0 }, self.reg@),
                invoked.len() == 0 ==> self.reg@.pending.len() == 0 && self.reg@.next_id == n0,
                self.deliveries@ == dels0,
            decreases work@.len(),
        {
            let ghost q = total - work@.len();
            let mut l = work.remove(0);
            proof {
                assert(l@ == m[q]);
            }
            if failure.is_none() {
                if l.is_active() {
                    proof {
                        assert(m[q].wf());
                    }
                    let ghost reg_before = self.reg@;
                    let r1 = l.call(&mut ev, &mut self.reg);
                    proof {
                        lemma_reg_extended_trans(
                            RegView { pending: Seq::empty(), next_id: n0 },
                            reg_before,
                            self.reg@,
                        );
                        invoked = invoked.push(CallRecord { key: m[q].key, result: r1 });
                        assert(calls_upto(m, q + 1) == calls_upto(m, q).push(
                            CallRecord { key: m[q].key, result: Ok(()) },
                        ));
                    }
                    match r1 {
                        Ok(()) => {
                            proof {
                                // A successful result carries the unit value.
                                assert(r1 is Ok);
                                assert(r1->Ok_0 == ());
                                assert(r1 == Ok::<(), HandlerError>(()));
                                assert(invoked == calls_upto(m, q + 1));
                            }
                            if l.is_once() {
                                l.deactivate();
                            }
                        },
                        Err(e) => {
                            proof {
                                let p_old = p;
                                let res_old = res_g;
                                p = q;
                                res_g = Err(e);
                                assert forall|t: int| 0 <= t < q implies #[trigger] walk_at(
                                    m,
                                    m2,
                                    p,
                                    x,
                                    res_g,
                                    t,
                                ) by {
                                    assert(walk_at(m, m2, p_old, x, res_old, t));
                                }
                            }
                            failure = Some(e);
                        },
                    }
                }
            }
            let ghost m2_prev = m2;
            proof {
                m2 = m2.update(q, l@);
                lemma_active_upto_update_beyond(m2_prev, q, q, l@);
                assert(active_upto(m2, q) == active_upto(m2_prev, q));
                assert(m2[q] == l@);
                assert(walk_at(m, m2, p, x, res_g, q));
                assert forall|t: int| 0 <= t < q implies #[trigger] walk_at(
                    m,
                    m2,
                    p,
                    x,
                    res_g,
                    t,
                ) by {
                    assert(walk_at(m, m2_prev, p, x, res_g, t));
                    assert(m2[t] == m2_prev[t]);
                }
            }
            if l.is_active() {
                self.listeners.push(l);
            }
            proof {
                assert(active_upto(m2, q + 1) == (if m2[q].active {
                    active_upto(m2, q).push(m2[q])
                } else {
                    active_upto(m2, q)
                }));
                assert(calls_upto(m, q + 1) == (if m[q].active {
                    calls_upto(m, q).push(CallRecord { key: m[q].key, result: Ok(()) })
                } else {
                    calls_upto(m, q)
                }));
            }
        }
        self.deliveries = Ghost(self.deliveries@.push(PassRecord { message: x, calls: invoked }));
        let r: EventHandlerResult = match failure {
            None => Ok(()),
            Some(e) => Err(e),
        };
        proof {
            assert(r == res_g);
            assert(self@.main =~= active_part(m2));
            assert(walk_rel(m, m2, p, x, r));
            assert(invoked == pass_calls(m, p, r));
            assert(self@.deliveries == pre.deliveries.push(
                PassRecord { message: x, calls: pass_calls(m, p, r) },
            ));
            assert(self@.pending == self.reg@.pending);
            assert(emit_step(pre, self@, p, x, r));
            lemma_emit_preserves_wf(pre, self@, p, x, r);
        }
        r
    }
}

} // verus!
