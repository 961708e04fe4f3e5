use vstd::prelude::*;

use crate::listener::{cancel_in, count_active, lemma_count_active_take_step, Listener, ListenerView};
use crate::subscription::Subscription;

verus! {

/// The mathematical content of a [`Registrar`]: the staged registrations and
/// the next key to hand out.
pub ghost struct RegView<H> {
    pub pending: Seq<ListenerView<H>>,
    pub next_id: usize,
}

/// How a registrar may change while out of the registry's hands (most
/// importantly, while a handler holds it during a delivery pass): the staged
/// records already present are untouched, and whatever is appended is an
/// armed record holding its handler, under a fresh key from the interval of
/// newly handed-out keys, no two alike, at most one per handed-out key.
pub open spec fn reg_extended<H>(pre: RegView<H>, post: RegView<H>) -> bool {
    &&& pre.next_id <= post.next_id
    &&& pre.pending.len() <= post.pending.len()
    &&& post.pending.take(pre.pending.len() as int) == pre.pending
    &&& post.pending.len() - pre.pending.len() <= post.next_id - pre.next_id
    &&& forall|i: int|
        pre.pending.len() <= i < post.pending.len() ==> ((#[trigger] post.pending[i]).active
            && post.pending[i].handler is Some && pre.next_id <= post.pending[i].key
            < post.next_id)
    &&& forall|i: int, j: int|
        #![trigger post.pending[i], post.pending[j]]
        pre.pending.len() <= i < j < post.pending.len() ==> post.pending[i].key
            != post.pending[j].key
}

/// Extension is reflexive: leaving the registrar alone extends it.
pub proof fn lemma_reg_extended_refl<H>(v: RegView<H>)
    ensures
        reg_extended(v, v),
{
    assert(v.pending.take(v.pending.len() as int) =~= v.pending);
}

/// Extension composes: two extensions in a row are one extension.
pub proof fn lemma_reg_extended_trans<H>(a: RegView<H>, b: RegView<H>, c: RegView<H>)
    requires
        reg_extended(a, b),
        reg_extended(b, c),
    ensures
        reg_extended(a, c),
{
    assert(c.pending.take(a.pending.len() as int) =~= a.pending) by {
        assert forall|i: int| 0 <= i < a.pending.len() implies c.pending.take(
            a.pending.len() as int,
        )[i] == a.pending[i] by {
            assert(c.pending[i] == c.pending.take(b.pending.len() as int)[i]);
            assert(b.pending[i] == b.pending.take(a.pending.len() as int)[i]);
        }
    }
    assert forall|i: int|
        a.pending.len() <= i < c.pending.len() implies ((#[trigger] c.pending[i]).active
        && c.pending[i].handler is Some && a.next_id <= c.pending[i].key < c.next_id) by {
        if i < b.pending.len() {
            assert(c.pending[i] == b.pending[i]);
        }
    }
    assert forall|i: int, j: int|
        #![trigger c.pending[i], c.pending[j]]
        a.pending.len() <= i < j < c.pending.len() implies c.pending[i].key
        != c.pending[j].key by {
        if j < b.pending.len() {
            assert(c.pending[i] == b.pending[i]);
            assert(c.pending[j] == b.pending[j]);
        } else if i < b.pending.len() {
            assert(c.pending[i] == b.pending[i]);
            assert(b.pending[i].key < b.next_id);
            assert(c.pending[j].key >= b.next_id);
        }
    }
}

/// The registry's intake: it stages each accepted registration, keyed with
/// the next free key, until the start of the next delivery pass.  During a
/// pass the walking registry hands the registrar to each handler, so
/// subscriptions made mid-emission land here and never touch the sequence
/// being walked.
pub struct Registrar<H> {
    pending: Vec<Listener<H>>,
    next_id: usize,
}

impl<H> View for Registrar<H> {
    type V = RegView<H>;

    closed spec fn view(&self) -> RegView<H> {
        RegView { pending: self.pending@.map_values(|l: Listener<H>| l@), next_id: self.next_id }
    }
}

impl<H> Registrar<H> {
    /// An empty registrar that has handed out no keys yet.
    pub fn new() -> (r: Self)
        ensures
            r@.pending.len() == 0,
            r@.next_id == 0,
    {
        let r = Registrar { pending: Vec::new(), next_id: 0 };
        proof {
            assert(r@.pending =~= Seq::<ListenerView<H>>::empty());
        }
        r
    }

    /// Whether a further registration can still be keyed.
    pub fn can_register(&self) -> (r: bool)
        ensures
            r == (self@.next_id < usize::MAX),
    {
        self.next_id < usize::MAX
    }

    /// Stages `listener` under the next free key and returns the handle that
    /// can cancel it.
    pub(crate) fn attach(&mut self, listener: Listener<H>) -> (s: Subscription)
        requires
            old(self)@.next_id < usize::MAX,
            listener@.active,
            listener@.wf(),
        ensures
            final(self)@.next_id == old(self)@.next_id + 1,
            final(self)@.pending == old(self)@.pending.push(
                ListenerView {
                    key: old(self)@.next_id,
                    once: listener@.once,
                    active: true,
                    handler: listener@.handler,
                },
            ),
            s@ == old(self)@.next_id,
            reg_extended(old(self)@, final(self)@),
    {
        let mut l = listener;
        l.set_key(self.next_id);
        let s = Subscription::new(l.get_activation_flag());
        self.next_id = self.next_id + 1;
        self.pending.push(l);
        proof {
            assert(self@.pending =~= old(self)@.pending.push(l@));
            assert(self@.pending.take(old(self)@.pending.len() as int) =~= old(self)@.pending);
        }
        s
    }

    /// Registers a persistent handler: it stays armed across any number of
    /// successful invocations.
    pub fn on(&mut self, handler: H) -> (s: Subscription)
        requires
            old(self)@.next_id < usize::MAX,
        ensures
            final(self)@.next_id == old(self)@.next_id + 1,
            final(self)@.pending == old(self)@.pending.push(
                ListenerView {
                    key: old(self)@.next_id,
                    once: false,
                    active: true,
                    handler: Some(handler),
                },
            ),
            s@ == old(self)@.next_id,
            reg_extended(old(self)@, final(self)@),
    {
        self.attach(Listener::new(false, handler))
    }

    /// Registers a one-shot handler: the registry disarms it right after its
    /// first successful invocation.
    pub fn once(&mut self, handler: H) -> (s: Subscription)
        requires
            old(self)@.next_id < usize::MAX,
        ensures
            final(self)@.next_id == old(self)@.next_id + 1,
            final(self)@.pending == old(self)@.pending.push(
                ListenerView {
                    key: old(self)@.next_id,
                    once: true,
                    active: true,
                    handler: Some(handler),
                },
            ),
            s@ == old(self)@.next_id,
            reg_extended(old(self)@, final(self)@),
    {
        self.attach(Listener::new(true, handler))
    }

    /// How many registrations are currently staged.
    pub(crate) fn pending_count(&self) -> (n: usize)
        ensures
            n == self@.pending.len(),
    {
        self.pending.len()
    }

    /// How many staged registrations are still armed.
    pub(crate) fn active_count(&self) -> (n: usize)
        ensures
            n as int == count_active(self@.pending),
    {
        let mut c: usize = 0;
        let mut i: usize = 0;
        while i < self.pending.len()
            invariant
                i <= self.pending@.len(),
                c <= i,
                c as int == count_active(self@.pending.take(i as int)),
            decreases self.pending@.len() - i,
        {
            proof {
                lemma_count_active_take_step(self@.pending, i as int);
                assert(self@.pending[i as int] == self.pending@[i as int]@);
            }
            if self.pending[i].is_active() {
                c = c + 1;
            }
            i = i + 1;
        }
        proof {
            assert(self@.pending.take(self.pending@.len() as int) =~= self@.pending);
        }
        c
    }

    /// Moves the staged registrations out, in order, leaving the registrar's
    /// key counter untouched.
    pub(crate) fn take_pending(&mut self) -> (v: Vec<Listener<H>>)
        ensures
            v@.len() == old(self)@.pending.len(),
            forall|i: int| 0 <= i < v@.len() ==> (#[trigger] v@[i])@ == old(self)@.pending[i],
            final(self)@.pending.len() == 0,
            final(self)@.next_id == old(self)@.next_id,
    {
        let mut v: Vec<Listener<H>> = Vec::new();
        core::mem::swap(&mut v, &mut self.pending);
        v
    }

    /// Discards every staged registration; the key counter is kept, so keys
    /// are never reissued.
    pub(crate) fn clear_pending(&mut self)
        ensures
            final(self)@.pending.len() == 0,
            final(self)@.next_id == old(self)@.next_id,
    {
        self.pending.clear();
    }

    /// Deactivates the staged record keyed `k`, if any.
    pub(crate) fn deactivate_key(&mut self, k: usize)
        ensures
            final(self)@.pending == cancel_in(old(self)@.pending, k),
            final(self)@.next_id == old(self)@.next_id,
    {
        crate::listener::deactivate_key_in(&mut self.pending, k);
        proof {
            assert(self@.pending =~= cancel_in(old(self)@.pending, k));
        }
    }
}

} // verus!
