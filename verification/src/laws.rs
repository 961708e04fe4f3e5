use vstd::prelude::*;

use crate::listener::{has_key, EventHandler, EventHandlerResult, ListenerView};
use crate::model::{
    absent, active_part, active_upto, armed_keys, call_keys, calls_key, calls_upto, cancel_step,
    dormant, em_wf, emit_step, emitter_step, keep_at, lemma_active_upto_props,
    lemma_calls_upto_armed_keys, lemma_calls_upto_props, lemma_cancel_preserves_wf,
    lemma_emit_preserves_wf, lemma_merged_ok, lemma_pass_calls_members,
    lemma_surv_upto_persistent, lemma_sweep_aligned, lemma_walk_shape, pass_calls,
    persistent_part, register_step, reset_step, surv_upto, walk_at, walk_rel, CallRecord, EmView,
    PassRecord,
};

verus! {

/// Law: a delivery pass in which every invocation succeeds invokes every
/// armed listener of the walked sequence exactly once, in registration
/// order, each on the emitted value `x` — the pass's record lists one
/// succeeding invocation per armed key, in order, and every invocation is a
/// `handles` transition of the registered handler itself on `x`.  What
/// remains is exactly the armed persistent records: key and one-shot flag
/// untouched, still armed, each handler stepped by its one invocation.
pub proof fn lemma_delivery_exactly_once<T, H: EventHandler<T>>(
    pre: EmView<T, H>,
    post: EmView<T, H>,
    x: T,
    r: EventHandlerResult,
)
    requires
        em_wf(pre),
        emit_step(pre, post, pre.merged().len() as int, x, r),
    ensures
        r is Ok,
        post.deliveries == pre.deliveries.push(
            PassRecord { message: x, calls: calls_upto(pre.merged(), pre.merged().len() as int) },
        ),
        post.deliveries.last().message == x,
        call_keys(post.deliveries.last().calls) == armed_keys(pre.merged()),
        forall|i: int|
            0 <= i < post.deliveries.last().calls.len() ==> (#[trigger] post.deliveries.last().calls[i]).result is Ok,
        forall|t: int|
            0 <= t < pre.merged().len() && (#[trigger] pre.merged()[t]).active ==> calls_key(
                post.deliveries.last().calls,
                pre.merged()[t].key,
            ),
        forall|k: usize|
            calls_key(post.deliveries.last().calls, k) ==> exists|t: int|
                0 <= t < pre.merged().len() && (#[trigger] pre.merged()[t]).key == k
                    && pre.merged()[t].active,
        forall|i: int, j: int|
            #![trigger post.deliveries.last().calls[i], post.deliveries.last().calls[j]]
            0 <= i < j < post.deliveries.last().calls.len() ==> post.deliveries.last().calls[i].key
                != post.deliveries.last().calls[j].key,
        forall|t: int|
            0 <= t < pre.merged().len() && (#[trigger] pre.merged()[t]).active ==> exists|h2: H|
                H::handles(pre.merged()[t].handler.unwrap(), x, h2, Ok(())),
        post.main.len() == persistent_part(pre.merged()).len(),
        forall|i: int|
            0 <= i < post.main.len() ==> (#[trigger] post.main[i]).key == persistent_part(
                pre.merged(),
            )[i].key && post.main[i].once == persistent_part(pre.merged())[i].once
                && post.main[i].active && post.main[i].handler is Some && H::handles(
                persistent_part(pre.merged())[i].handler.unwrap(),
                x,
                post.main[i].handler.unwrap(),
                Ok(()),
            ),
{
    lemma_merged_ok(pre);
    let m = pre.merged();
    let n = m.len() as int;
    lemma_calls_upto_props(m, n);
    lemma_calls_upto_armed_keys(m, n);
    assert(m.take(n) =~= m);
    let m2 = choose|m2: Seq<ListenerView<H>>|
        (#[trigger] walk_rel(m, m2, n, x, r)) && post.main == active_part(m2);
    lemma_walk_shape(m, m2, n, x, r, pre.next_id);
    assert forall|t: int|
        0 <= t < m.len() && (#[trigger] m[t]).active implies exists|h2: H|
        H::handles(m[t].handler.unwrap(), x, h2, Ok(())) by {
        assert(walk_at(m, m2, n, x, r, t));
        if !m[t].once {
            assert(H::handles(m[t].handler.unwrap(), x, m2[t].handler.unwrap(), Ok(())));
        }
    }
    lemma_surv_upto_persistent(m, n, n);
    assert(surv_upto(m, n, n) == persistent_part(m));
    let rel = |a: ListenerView<H>, b: ListenerView<H>|
        b.key == a.key && b.once == a.once && b.active && b.handler is Some && H::handles(
            a.handler.unwrap(),
            x,
            b.handler.unwrap(),
            Ok(()),
        );
    assert forall|t: int| 0 <= t < n && #[trigger] keep_at(m, n, t) implies rel(m[t], m2[t]) by {
        assert(walk_at(m, m2, n, x, r, t));
    }
    lemma_sweep_aligned(m, m2, n, n, rel);
    assert(post.main == active_upto(m2, n));
    assert forall|i: int|
        0 <= i < post.main.len() implies (#[trigger] post.main[i]).key == persistent_part(m)[i].key
        && post.main[i].once == persistent_part(m)[i].once && post.main[i].active
        && post.main[i].handler is Some && H::handles(
        persistent_part(m)[i].handler.unwrap(),
        x,
        post.main[i].handler.unwrap(),
        Ok(()),
    ) by {
        assert(rel(surv_upto(m, n, n)[i], active_upto(m2, n)[i]));
    }
}

/// Law: when every invocation of the handler type on the emitted value can
/// only succeed — its invocation relation admits no error for `x` — a
/// delivery pass of `x` returns `Ok`, whatever listeners are registered.
pub proof fn lemma_all_ok_emits_ok<T, H: EventHandler<T>>(
    pre: EmView<T, H>,
    post: EmView<T, H>,
    p: int,
    x: T,
    r: EventHandlerResult,
)
    requires
        em_wf(pre),
        emit_step(pre, post, p, x, r),
        forall|h: H, h2: H, rr: EventHandlerResult| #[trigger] H::handles(h, x, h2, rr) ==> rr is Ok,
    ensures
        r is Ok,
        p == pre.merged().len(),
{
    let m = pre.merged();
    if p < m.len() {
        let m2 = choose|m2: Seq<ListenerView<H>>|
            (#[trigger] walk_rel(m, m2, p, x, r)) && post.main == active_part(m2);
        assert(walk_at(m, m2, p, x, r, p));
        assert(H::handles(m[p].handler.unwrap(), x, m2[p].handler.unwrap(), r));
        assert(r is Ok);
    }
}

/// Law: when the invocation at position `p` fails, the pass invoked exactly
/// the armed listeners at positions up to and including `p`, each once, each
/// on the emitted value `x`; every invocation before `p` succeeded; the
/// failing invocation's own result is the pass's last record and the very
/// value `emit` returns, unwrapped; nothing past `p` was invoked; and every
/// armed record at or past `p` stays for the next pass — the unvisited ones
/// exactly as they were, handler included, and the failing one, one-shot or
/// not, still armed with its stepped handler.
pub proof fn lemma_error_stops_pass<T, H: EventHandler<T>>(
    pre: EmView<T, H>,
    post: EmView<T, H>,
    p: int,
    x: T,
    r: EventHandlerResult,
)
    requires
        em_wf(pre),
        emit_step(pre, post, p, x, r),
        p < pre.merged().len(),
    ensures
        r is Err,
        pre.merged()[p].active,
        post.deliveries == pre.deliveries.push(
            PassRecord { message: x, calls: pass_calls(pre.merged(), p, r) },
        ),
        post.deliveries.last().message == x,
        post.deliveries.last().calls.len() > 0,
        post.deliveries.last().calls.last() == (CallRecord { key: pre.merged()[p].key, result: r }),
        forall|i: int|
            0 <= i < post.deliveries.last().calls.len() - 1 ==> (#[trigger] post.deliveries.last().calls[i]).result is Ok,
        forall|t: int|
            0 <= t <= p && (#[trigger] pre.merged()[t]).active ==> calls_key(
                post.deliveries.last().calls,
                pre.merged()[t].key,
            ),
        forall|t: int|
            p < t < pre.merged().len() ==> !calls_key(
                post.deliveries.last().calls,
                (#[trigger] pre.merged()[t]).key,
            ),
        forall|i: int, j: int|
            #![trigger post.deliveries.last().calls[i], post.deliveries.last().calls[j]]
            0 <= i < j < post.deliveries.last().calls.len() ==> post.deliveries.last().calls[i].key
                != post.deliveries.last().calls[j].key,
        forall|t: int|
            0 <= t < p && (#[trigger] pre.merged()[t]).active ==> exists|h2: H|
                H::handles(pre.merged()[t].handler.unwrap(), x, h2, Ok(())),
        forall|t: int|
            p < t < pre.merged().len() && (#[trigger] pre.merged()[t]).active ==> post.main.contains(
                pre.merged()[t],
            ),
        exists|i: int|
            0 <= i < post.main.len() && (#[trigger] post.main[i]).key == pre.merged()[p].key
                && post.main[i].active && post.main[i].once == pre.merged()[p].once
                && post.main[i].handler is Some && H::handles(
                pre.merged()[p].handler.unwrap(),
                x,
                post.main[i].handler.unwrap(),
                r,
            ),
{
    lemma_merged_ok(pre);
    let m = pre.merged();
    let cs = pass_calls(m, p, r);
    lemma_calls_upto_props(m, p);
    assert(cs == calls_upto(m, p).push(CallRecord { key: m[p].key, result: r }));
    assert forall|t: int|
        0 <= t <= p && (#[trigger] m[t]).active implies calls_key(cs, m[t].key) by {
        if t < p {
            assert(calls_key(calls_upto(m, p), m[t].key));
            let w = choose|w: int|
                0 <= w < calls_upto(m, p).len() && (#[trigger] calls_upto(m, p)[w]).key == m[t].key;
            assert(cs[w].key == m[t].key);
        } else {
            assert(cs[cs.len() - 1].key == m[t].key);
        }
    }
    assert forall|t: int| p < t < m.len() implies !calls_key(cs, (#[trigger] m[t]).key) by {
        if calls_key(cs, m[t].key) {
            let i = choose|i: int| 0 <= i < cs.len() && (#[trigger] cs[i]).key == m[t].key;
            if i < cs.len() - 1 {
                assert(calls_upto(m, p)[i] == cs[i]);
                assert(calls_key(calls_upto(m, p), m[t].key));
                let t2 = choose|t2: int|
                    0 <= t2 < p && (#[trigger] m[t2]).key == m[t].key && m[t2].active;
                assert(t2 != t);
            } else {
                assert(m[p].key == m[t].key && p != t);
            }
        }
    }
    assert forall|i: int, j: int|
        #![trigger cs[i], cs[j]]
        0 <= i < j < cs.len() implies cs[i].key != cs[j].key by {
        if j < cs.len() - 1 {
            assert(cs[i] == calls_upto(m, p)[i] && cs[j] == calls_upto(m, p)[j]);
        } else {
            assert(cs[j].key == m[p].key);
            assert(cs[i] == calls_upto(m, p)[i]);
            assert(calls_key(calls_upto(m, p), cs[i].key)) by {
                assert(calls_upto(m, p)[i].key == cs[i].key);
            }
            let t2 = choose|t2: int|
                0 <= t2 < p && (#[trigger] m[t2]).key == cs[i].key && m[t2].active;
            assert(m[t2].key != m[p].key);
        }
    }
    let m2 = choose|m2: Seq<ListenerView<H>>|
        (#[trigger] walk_rel(m, m2, p, x, r)) && post.main == active_part(m2);
    lemma_walk_shape(m, m2, p, x, r, pre.next_id);
    lemma_active_upto_props(m2, m2.len() as int, pre.next_id);
    assert forall|t: int|
        0 <= t < p && (#[trigger] m[t]).active implies exists|h2: H|
        H::handles(m[t].handler.unwrap(), x, h2, Ok(())) by {
        assert(walk_at(m, m2, p, x, r, t));
        if !m[t].once {
            assert(H::handles(m[t].handler.unwrap(), x, m2[t].handler.unwrap(), Ok(())));
        }
    }
    assert forall|t: int|
        p < t < m.len() && (#[trigger] m[t]).active implies post.main.contains(m[t]) by {
        assert(walk_at(m, m2, p, x, r, t));
        assert(m2[t] == m[t]);
        assert(active_upto(m2, m2.len() as int).contains(m2[t]));
    }
    assert(walk_at(m, m2, p, x, r, p));
    assert(m2[p].active);
    assert(active_upto(m2, m2.len() as int).contains(m2[p]));
    let i = choose|i: int| 0 <= i < post.main.len() && post.main[i] == m2[p];
    assert(post.main[i].key == m[p].key && post.main[i].active && post.main[i].once == m[p].once
        && post.main[i].handler is Some && H::handles(
        m[p].handler.unwrap(),
        x,
        post.main[i].handler.unwrap(),
        r,
    ));
}

/// Law: a one-shot listener whose invocation succeeded — the pass moved past
/// it — is removed from the registry outright, and its key is spent for
/// good.
pub proof fn lemma_once_exhausted<T, H: EventHandler<T>>(
    pre: EmView<T, H>,
    post: EmView<T, H>,
    p: int,
    x: T,
    r: EventHandlerResult,
    t: int,
)
    requires
        em_wf(pre),
        emit_step(pre, post, p, x, r),
        0 <= t < pre.merged().len(),
        pre.merged()[t].active,
        pre.merged()[t].once,
        t < p,
    ensures
        absent(post, pre.merged()[t].key),
{
    lemma_merged_ok(pre);
    let m = pre.merged();
    let k = m[t].key;
    let m2 = choose|m2: Seq<ListenerView<H>>|
        (#[trigger] walk_rel(m, m2, p, x, r)) && post.main == active_part(m2);
    lemma_walk_shape(m, m2, p, x, r, pre.next_id);
    lemma_active_upto_props(m2, m2.len() as int, pre.next_id);
    if has_key(post.main, k) {
        let i = choose|i: int| 0 <= i < post.main.len() && (#[trigger] post.main[i]).key == k;
        let t2 = choose|t2: int|
            0 <= t2 < m2.len() && (#[trigger] post.main[i]) == m2[t2] && m2[t2].active;
        assert(m2[t2].key == m[t2].key);
        assert(m[t2].key == m[t].key);
        assert(t2 == t);
        assert(!keep_at(m, p, t));
    }
    if has_key(post.pending, k) {
        let i = choose|i: int|
            0 <= i < post.pending.len() && (#[trigger] post.pending[i]).key == k;
        assert(post.pending[i].key >= pre.next_id);
        assert(k < pre.next_id);
    }
    assert(k < pre.next_id <= post.next_id);
}

/// Law: once no record carries a key, none ever will again — every
/// operation preserves absence, and no later delivery pass invokes the key.
pub proof fn lemma_absent_preserved<T, H: EventHandler<T>>(
    pre: EmView<T, H>,
    post: EmView<T, H>,
    k: usize,
)
    requires
        em_wf(pre),
        emitter_step(pre, post),
        absent(pre, k),
    ensures
        absent(post, k),
        post.deliveries.len() > pre.deliveries.len() ==> !calls_key(
            post.deliveries.last().calls,
            k,
        ),
{
    lemma_merged_ok(pre);
    let m = pre.merged();
    assert(!has_key(m, k)) by {
        if has_key(m, k) {
            let t = choose|t: int| 0 <= t < m.len() && (#[trigger] m[t]).key == k;
            if t < pre.main.len() {
                assert(pre.main[t].key == k);
            } else {
                assert(pre.pending[t - pre.main.len()].key == k);
            }
        }
    }
    if exists|once: bool, k2: usize, h: H| register_step(pre, post, once, k2, h) {
        let (once, k2, h) = choose|once: bool, k2: usize, h: H|
            register_step(pre, post, once, k2, h);
        if has_key(post.pending, k) {
            let i = choose|i: int|
                0 <= i < post.pending.len() && (#[trigger] post.pending[i]).key == k;
            if i < pre.pending.len() {
                assert(post.pending[i] == pre.pending[i]);
            }
        }
    } else if exists|k2: usize| cancel_step(pre, post, k2) {
        let k2 = choose|k2: usize| cancel_step(pre, post, k2);
        if has_key(post.main, k) {
            let i = choose|i: int| 0 <= i < post.main.len() && (#[trigger] post.main[i]).key == k;
            assert(pre.main[i].key == k);
        }
        if has_key(post.pending, k) {
            let i = choose|i: int|
                0 <= i < post.pending.len() && (#[trigger] post.pending[i]).key == k;
            assert(pre.pending[i].key == k);
        }
    } else if reset_step(pre, post) {
    } else {
        let (p, x, r) = choose|p: int, x: T, r: EventHandlerResult|
            emit_step(pre, post, p, x, r);
        let m2 = choose|m2: Seq<ListenerView<H>>|
            (#[trigger] walk_rel(m, m2, p, x, r)) && post.main == active_part(m2);
        lemma_walk_shape(m, m2, p, x, r, pre.next_id);
        lemma_active_upto_props(m2, m2.len() as int, pre.next_id);
        if has_key(post.main, k) {
            let i = choose|i: int| 0 <= i < post.main.len() && (#[trigger] post.main[i]).key == k;
            let t = choose|t: int|
                0 <= t < m2.len() && (#[trigger] post.main[i]) == m2[t] && m2[t].active;
            assert(m[t].key == k);
        }
        if has_key(post.pending, k) {
            let i = choose|i: int|
                0 <= i < post.pending.len() && (#[trigger] post.pending[i]).key == k;
            assert(post.pending[i].key >= pre.next_id);
        }
        if calls_key(post.deliveries.last().calls, k) {
            lemma_pass_calls_members(m, p, r, k);
            let t = choose|t: int| 0 <= t < m.len() && (#[trigger] m[t]).key == k && m[t].active;
            assert(m[t].key == k);
        }
    }
}

/// Law: a one-shot listener that fired successfully is never invoked by any
/// later delivery pass.
pub proof fn lemma_once_not_called_again<T, H: EventHandler<T>>(
    s0: EmView<T, H>,
    s1: EmView<T, H>,
    s2: EmView<T, H>,
    p1: int,
    x1: T,
    r1: EventHandlerResult,
    p2: int,
    x2: T,
    r2: EventHandlerResult,
    t: int,
)
    requires
        em_wf(s0),
        emit_step(s0, s1, p1, x1, r1),
        emit_step(s1, s2, p2, x2, r2),
        0 <= t < s0.merged().len(),
        s0.merged()[t].active,
        s0.merged()[t].once,
        t < p1,
    ensures
        !calls_key(s2.deliveries.last().calls, s0.merged()[t].key),
{
    lemma_once_exhausted(s0, s1, p1, x1, r1, t);
    lemma_emit_preserves_wf(s0, s1, p1, x1, r1);
    assert(emitter_step(s1, s2));
    lemma_absent_preserved(s1, s2, s0.merged()[t].key);
}

/// Law: cancelling a key that no record carries any more — the listener was
/// exhausted, swept out or reset away — changes nothing at all, so a
/// subscription handle outliving its listener is harmless, and cancelling
/// twice is the same as cancelling once.
pub proof fn lemma_cancel_absent_noop<T, H>(pre: EmView<T, H>, post: EmView<T, H>, k: usize)
    requires
        cancel_step(pre, post, k),
        absent(pre, k),
    ensures
        post == pre,
{
    assert(post.main =~= pre.main) by {
        assert forall|i: int| 0 <= i < pre.main.len() implies post.main[i] == pre.main[i] by {
            assert(pre.main[i].key != k);
        }
    }
    assert(post.pending =~= pre.pending) by {
        assert forall|i: int|
            0 <= i < pre.pending.len() implies post.pending[i] == pre.pending[i] by {
            assert(pre.pending[i].key != k);
        }
    }
    assert(post == pre);
}

/// Law: cancelling through a subscription disarms its listener at once.
pub proof fn lemma_cancel_disarms<T, H>(pre: EmView<T, H>, post: EmView<T, H>, k: usize)
    requires
        cancel_step(pre, post, k),
        k < pre.next_id,
    ensures
        dormant(post, k),
{
    assert forall|i: int|
        0 <= i < post.main.len() && (#[trigger] post.main[i]).key == k implies !post.main[i].active by {
        assert(post.main[i] == (if pre.main[i].key == k {
            pre.main[i].deactivated()
        } else {
            pre.main[i]
        }));
    }
    assert forall|i: int|
        0 <= i < post.pending.len() && (#[trigger] post.pending[i]).key == k implies !post.pending[i].active by {
        assert(post.pending[i] == (if pre.pending[i].key == k {
            pre.pending[i].deactivated()
        } else {
            pre.pending[i]
        }));
    }
}

/// Law: a disarmed key stays disarmed through every operation, and no later
/// delivery pass invokes it.
pub proof fn lemma_dormant_preserved<T, H: EventHandler<T>>(
    pre: EmView<T, H>,
    post: EmView<T, H>,
    k: usize,
)
    requires
        em_wf(pre),
        emitter_step(pre, post),
        dormant(pre, k),
    ensures
        dormant(post, k),
        post.deliveries.len() > pre.deliveries.len() ==> !calls_key(
            post.deliveries.last().calls,
            k,
        ),
{
    lemma_merged_ok(pre);
    let m = pre.merged();
    assert(forall|t: int| 0 <= t < m.len() && (#[trigger] m[t]).key == k ==> !m[t].active) by {
        assert forall|t: int|
            0 <= t < m.len() && (#[trigger] m[t]).key == k implies !m[t].active by {
            if t < pre.main.len() {
                assert(m[t] == pre.main[t]);
            } else {
                assert(m[t] == pre.pending[t - pre.main.len()]);
            }
        }
    }
    if exists|once: bool, k2: usize, h: H| register_step(pre, post, once, k2, h) {
        let (once, k2, h) = choose|once: bool, k2: usize, h: H|
            register_step(pre, post, once, k2, h);
        assert forall|i: int|
            0 <= i < post.pending.len() && (#[trigger] post.pending[i]).key
                == k implies !post.pending[i].active by {
            if i < pre.pending.len() {
                assert(post.pending[i] == pre.pending[i]);
            } else {
                assert(post.pending[i].key == pre.next_id);
            }
        }
    } else if exists|k2: usize| cancel_step(pre, post, k2) {
        let k2 = choose|k2: usize| cancel_step(pre, post, k2);
        assert forall|i: int|
            0 <= i < post.main.len() && (#[trigger] post.main[i]).key
                == k implies !post.main[i].active by {
            assert(post.main[i] == (if pre.main[i].key == k2 {
                pre.main[i].deactivated()
            } else {
                pre.main[i]
            }));
        }
        assert forall|i: int|
            0 <= i < post.pending.len() && (#[trigger] post.pending[i]).key
                == k implies !post.pending[i].active by {
            assert(post.pending[i] == (if pre.pending[i].key == k2 {
                pre.pending[i].deactivated()
            } else {
                pre.pending[i]
            }));
        }
    } else if reset_step(pre, post) {
    } else {
        let (p, x, r) = choose|p: int, x: T, r: EventHandlerResult|
            emit_step(pre, post, p, x, r);
        let m2 = choose|m2: Seq<ListenerView<H>>|
            (#[trigger] walk_rel(m, m2, p, x, r)) && post.main == active_part(m2);
        lemma_walk_shape(m, m2, p, x, r, pre.next_id);
        lemma_active_upto_props(m2, m2.len() as int, pre.next_id);
        assert forall|i: int|
            0 <= i < post.main.len() && (#[trigger] post.main[i]).key
                == k implies !post.main[i].active by {
            let t = choose|t: int|
                0 <= t < m2.len() && (#[trigger] post.main[i]) == m2[t] && m2[t].active;
            assert(keep_at(m, p, t));
            assert(m[t].key == k && m[t].active);
        }
        assert forall|i: int|
            0 <= i < post.pending.len() && (#[trigger] post.pending[i]).key
                == k implies !post.pending[i].active by {
            assert(post.pending[i].key >= pre.next_id);
        }
        if calls_key(post.deliveries.last().calls, k) {
            lemma_pass_calls_members(m, p, r, k);
            let t = choose|t: int| 0 <= t < m.len() && (#[trigger] m[t]).key == k && m[t].active;
            assert(!m[t].active);
        }
    }
}

/// Law: a subscription cancelled before the next delivery pass keeps its
/// listener out of that pass.  With `lemma_dormant_preserved`, out of every
/// later pass as well.
pub proof fn lemma_cancelled_not_called<T, H: EventHandler<T>>(
    s0: EmView<T, H>,
    s1: EmView<T, H>,
    s2: EmView<T, H>,
    k: usize,
    p: int,
    x: T,
    r: EventHandlerResult,
)
    requires
        em_wf(s0),
        cancel_step(s0, s1, k),
        k < s0.next_id,
        emit_step(s1, s2, p, x, r),
    ensures
        !calls_key(s2.deliveries.last().calls, k),
        dormant(s2, k),
{
    lemma_cancel_disarms(s0, s1, k);
    lemma_cancel_preserves_wf(s0, s1, k);
    assert(emitter_step(s1, s2));
    lemma_dormant_preserved(s1, s2, k);
}

/// Law: a listener registered during a delivery pass is not invoked by that
/// pass — the pass's record is a function of the registry as the pass began
/// and of the handlers' own results — and stands armed in the staging area
/// afterwards, holding its handler.
pub proof fn lemma_reentrant_deferred<T, H: EventHandler<T>>(
    pre: EmView<T, H>,
    post: EmView<T, H>,
    p: int,
    x: T,
    r: EventHandlerResult,
    i: int,
)
    requires
        em_wf(pre),
        emit_step(pre, post, p, x, r),
        0 <= i < post.pending.len(),
    ensures
        post.deliveries.last().message == x,
        post.deliveries.last().calls == pass_calls(pre.merged(), p, r),
        !calls_key(post.deliveries.last().calls, post.pending[i].key),
        post.pending[i].active,
        post.pending[i].handler is Some,
{
    lemma_merged_ok(pre);
    let m = pre.merged();
    let k = post.pending[i].key;
    assert(k >= pre.next_id);
    if calls_key(post.deliveries.last().calls, k) {
        lemma_pass_calls_members(m, p, r, k);
        let t = choose|t: int| 0 <= t < m.len() && (#[trigger] m[t]).key == k && m[t].active;
        assert(m[t].key < pre.next_id);
    }
}

/// Law: a listener registered during one delivery pass is invoked by the
/// next pass, on that pass's value, when the pass runs to completion and the
/// listener was not cancelled in between.
pub proof fn lemma_reentrant_visible_next<T, H: EventHandler<T>>(
    s0: EmView<T, H>,
    s1: EmView<T, H>,
    s2: EmView<T, H>,
    p1: int,
    x1: T,
    r1: EventHandlerResult,
    x2: T,
    r2: EventHandlerResult,
    i: int,
)
    requires
        em_wf(s0),
        emit_step(s0, s1, p1, x1, r1),
        emit_step(s1, s2, s1.merged().len() as int, x2, r2),
        0 <= i < s1.pending.len(),
    ensures
        calls_key(s2.deliveries.last().calls, s1.pending[i].key),
        exists|h2: H| H::handles(s1.pending[i].handler.unwrap(), x2, h2, Ok(())),
{
    lemma_emit_preserves_wf(s0, s1, p1, x1, r1);
    lemma_merged_ok(s1);
    let m1 = s1.merged();
    let n1 = m1.len() as int;
    let t = s1.main.len() + i;
    assert(m1[t] == s1.pending[i]);
    assert(m1[t].active);
    lemma_calls_upto_props(m1, n1);
    assert(calls_key(calls_upto(m1, n1), m1[t].key));
    let m2 = choose|m2: Seq<ListenerView<H>>|
        (#[trigger] walk_rel(m1, m2, n1, x2, r2)) && s2.main == active_part(m2);
    assert(walk_at(m1, m2, n1, x2, r2, t));
    if !m1[t].once {
        assert(H::handles(m1[t].handler.unwrap(), x2, m2[t].handler.unwrap(), Ok(())));
    }
}

/// Law: a delivery pass over a registry with no armed listener invokes
/// nobody, fails nowhere, registers nobody, hands out no key, and leaves
/// the walked sequence empty.
pub proof fn lemma_emit_without_armed<T, H: EventHandler<T>>(
    pre: EmView<T, H>,
    post: EmView<T, H>,
    p: int,
    x: T,
    r: EventHandlerResult,
)
    requires
        em_wf(pre),
        emit_step(pre, post, p, x, r),
        forall|t: int| 0 <= t < pre.merged().len() ==> !(#[trigger] pre.merged()[t]).active,
    ensures
        p == pre.merged().len(),
        r is Ok,
        post.deliveries.last().calls.len() == 0,
        post.main.len() == 0,
        post.pending.len() == 0,
        post.next_id == pre.next_id,
{
    lemma_merged_ok(pre);
    let m = pre.merged();
    lemma_calls_upto_props(m, m.len() as int);
    let rec = post.deliveries.last().calls;
    if rec.len() > 0 {
        assert(calls_key(rec, rec[0].key)) by {
            assert(rec[0].key == rec[0].key);
        }
        lemma_pass_calls_members(m, p, r, rec[0].key);
        let t = choose|t: int|
            0 <= t < m.len() && (#[trigger] m[t]).key == rec[0].key && m[t].active;
        assert(!m[t].active);
    }
    let m2 = choose|m2: Seq<ListenerView<H>>|
        (#[trigger] walk_rel(m, m2, p, x, r)) && post.main == active_part(m2);
    lemma_walk_shape(m, m2, p, x, r, pre.next_id);
    lemma_active_upto_props(m2, m2.len() as int, pre.next_id);
    if post.main.len() > 0 {
        let t = choose|t: int|
            0 <= t < m2.len() && (#[trigger] post.main[0]) == m2[t] && m2[t].active;
        assert(keep_at(m, p, t));
        assert(!m[t].active);
    }
}

/// Law: the delivery log is append-only — no operation rewrites what past
/// passes delivered.
pub proof fn lemma_deliveries_append_only<T, H: EventHandler<T>>(
    pre: EmView<T, H>,
    post: EmView<T, H>,
)
    requires
        emitter_step(pre, post),
    ensures
        pre.deliveries.is_prefix_of(post.deliveries),
{
    if exists|p: int, x: T, r: EventHandlerResult| emit_step(pre, post, p, x, r) {
        let (p, x, r) = choose|p: int, x: T, r: EventHandlerResult|
            emit_step(pre, post, p, x, r);
        assert(post.deliveries == pre.deliveries.push(
            PassRecord { message: x, calls: pass_calls(pre.merged(), p, r) },
        ));
        assert(post.deliveries.take(pre.deliveries.len() as int) =~= pre.deliveries);
    } else {
        assert(post.deliveries == pre.deliveries);
        assert(post.deliveries.take(pre.deliveries.len() as int) =~= pre.deliveries);
    }
}

/// Law: a reset empties the registry at once, and cancelling any
/// subscription afterwards changes nothing at all.
pub proof fn lemma_reset_finalizes<T, H>(
    pre: EmView<T, H>,
    post: EmView<T, H>,
    post2: EmView<T, H>,
    k: usize,
)
    requires
        reset_step(pre, post),
        cancel_step(post, post2, k),
    ensures
        post.main.len() == 0,
        post.pending.len() == 0,
        post2 == post,
{
    assert(post2.main =~= post.main);
    assert(post2.pending =~= post.pending);
    assert(post2 == post);
}

} // verus!
