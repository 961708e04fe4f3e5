use vstd::prelude::*;

use crate::listener::{
    cancel_in, entries_ok, has_key, keys_distinct, EventHandler, EventHandlerResult, ListenerView,
};
use crate::registrar::{reg_extended, RegView};

verus! {

/// One handler invocation as a delivery pass records it: which listener was
/// invoked and what its handler returned.
pub ghost struct CallRecord {
    pub key: usize,
    pub result: EventHandlerResult,
}

/// One delivery pass as the log records it: the emitted value and the
/// invocations the pass made, in invocation order.
pub ghost struct PassRecord<T> {
    pub message: T,
    pub calls: Seq<CallRecord>,
}

/// The mathematical content of an emitter: the walked sequence of listener
/// records, the staged registrations, the next key to hand out, and the
/// delivery log — one [`PassRecord`] per past emission.
pub ghost struct EmView<T, H> {
    pub main: Seq<ListenerView<H>>,
    pub pending: Seq<ListenerView<H>>,
    pub next_id: usize,
    pub deliveries: Seq<PassRecord<T>>,
}

impl<T, H> EmView<T, H> {
    /// The sequence one delivery pass walks: the already merged records
    /// followed by the staged ones, in registration order.
    pub open spec fn merged(self) -> Seq<ListenerView<H>> {
        self.main + self.pending
    }
}

/// The emitter's invariant: all records are well formed and keyed below the
/// next key, no key is carried twice, and no more records exist than keys
/// were handed out (so the record count always fits the key space).
pub open spec fn em_wf<T, H>(v: EmView<T, H>) -> bool {
    &&& entries_ok(v.main, v.next_id)
    &&& entries_ok(v.pending, v.next_id)
    &&& keys_distinct(v.main + v.pending)
    &&& v.main.len() + v.pending.len() <= v.next_id
}

/// Some invocation among `calls` addressed the listener keyed `k`.
pub open spec fn calls_key(calls: Seq<CallRecord>, k: usize) -> bool {
    exists|i: int| 0 <= i < calls.len() && (#[trigger] calls[i]).key == k
}

/// The invoked keys of `calls`, in invocation order.
pub open spec fn call_keys(calls: Seq<CallRecord>) -> Seq<usize> {
    calls.map_values(|c: CallRecord| c.key)
}

/// The invocations a pass over `m` has made once it has examined the
/// records at positions below `q`: one per armed record among them, in
/// order, each of which succeeded.
pub open spec fn calls_upto<H>(m: Seq<ListenerView<H>>, q: int) -> Seq<CallRecord>
    decreases q,
{
    if q <= 0 {
        Seq::empty()
    } else if m[q - 1].active {
        calls_upto(m, q - 1).push(CallRecord { key: m[q - 1].key, result: Ok(()) })
    } else {
        calls_upto(m, q - 1)
    }
}

/// The invocations of one whole pass over `m` that failed at position `p`
/// (`p == m.len()`: none failed): every armed record before `p` was invoked
/// and succeeded, the armed record at `p` was invoked and returned the
/// failing result `r`, and nothing after `p` was invoked.
pub open spec fn pass_calls<H>(m: Seq<ListenerView<H>>, p: int, r: EventHandlerResult) -> Seq<
    CallRecord,
> {
    if p >= m.len() {
        calls_upto(m, m.len() as int)
    } else {
        calls_upto(m, p).push(CallRecord { key: m[p].key, result: r })
    }
}

/// Whether the record at position `t` of `m` is still present after a pass
/// that failed at position `p` (`p == m.len()`: none failed).  A record
/// survives iff it is armed at the end of the walk: disarmed records are
/// swept out, an armed one-shot strictly before the failure point fired
/// successfully and was disarmed, the failing record itself is not disarmed
/// by its own error, and records past the failure point were left exactly as
/// they were.
pub open spec fn keep_at<H>(m: Seq<ListenerView<H>>, p: int, t: int) -> bool {
    m[t].active && (t >= p || !m[t].once)
}

/// The records of `m` among positions below `q` that a pass failing at `p`
/// leaves behind, in order.  The kept records are listed as they stood
/// *before* the walk; `walk_at` says how each one's handler moved.
pub open spec fn surv_upto<H>(m: Seq<ListenerView<H>>, p: int, q: int) -> Seq<ListenerView<H>>
    decreases q,
{
    if q <= 0 {
        Seq::empty()
    } else if keep_at(m, p, q - 1) {
        surv_upto(m, p, q - 1).push(m[q - 1])
    } else {
        surv_upto(m, p, q - 1)
    }
}

/// The armed records among positions below `q` of `s`, in order: the sweep
/// that ends a delivery pass keeps exactly these.
pub open spec fn active_upto<H>(s: Seq<ListenerView<H>>, q: int) -> Seq<ListenerView<H>>
    decreases q,
{
    if q <= 0 {
        Seq::empty()
    } else if s[q - 1].active {
        active_upto(s, q - 1).push(s[q - 1])
    } else {
        active_upto(s, q - 1)
    }
}

/// The armed records of `s`, in order.
pub open spec fn active_part<H>(s: Seq<ListenerView<H>>) -> Seq<ListenerView<H>> {
    active_upto(s, s.len() as int)
}

/// The keys of the armed records of `m`, in order.
pub open spec fn armed_keys<H>(m: Seq<ListenerView<H>>) -> Seq<usize> {
    m.filter(|l: ListenerView<H>| l.active).map_values(|l: ListenerView<H>| l.key)
}

/// The armed persistent records of `m`, in order: the positions a pass in
/// which every invocation succeeds leaves behind.
pub open spec fn persistent_part<H>(m: Seq<ListenerView<H>>) -> Seq<ListenerView<H>> {
    m.filter(|l: ListenerView<H>| l.active && !l.once)
}

/// How the walk of one delivery pass treats the record at position `t`:
/// `m` holds the records as the pass began, `m2` as the walk left them
/// (before the sweep), `x` is the emitted value and `r` the pass's result.
/// A record not armed, or past the failure point `p`, is left exactly as it
/// was — handler included.  An armed record before `p` had its handler
/// invoked once, on `x`, and the invocation succeeded: a one-shot is then
/// disarmed and its handler released, a persistent record keeps its stepped
/// handler.  The armed record at `p` itself had its handler invoked once, on
/// `x`; the invocation returned `r`, and the record stays armed with its
/// stepped handler.  To the abstract handler type the delivery engine is
/// verified against, a `handles` transition can only come out of a real
/// `on_event` invocation, so each one here stands for an invocation that
/// actually happened.
pub open spec fn walk_at<T, H: EventHandler<T>>(
    m: Seq<ListenerView<H>>,
    m2: Seq<ListenerView<H>>,
    p: int,
    x: T,
    r: EventHandlerResult,
    t: int,
) -> bool {
    let l = m[t];
    let l2 = m2[t];
    if !l.active || t > p {
        l2 == l
    } else if t < p {
        if l.once {
            l2 == l.deactivated() && (exists|h2: H| H::handles(l.handler.unwrap(), x, h2, Ok(())))
        } else {
            &&& l2 == (ListenerView { key: l.key, once: l.once, active: true, handler: l2.handler })
            &&& l2.handler is Some
            &&& H::handles(l.handler.unwrap(), x, l2.handler.unwrap(), Ok(()))
        }
    } else {
        &&& l2 == (ListenerView { key: l.key, once: l.once, active: true, handler: l2.handler })
        &&& l2.handler is Some
        &&& H::handles(l.handler.unwrap(), x, l2.handler.unwrap(), r)
    }
}

/// The whole walk: every position treated as `walk_at` says.
pub open spec fn walk_rel<T, H: EventHandler<T>>(
    m: Seq<ListenerView<H>>,
    m2: Seq<ListenerView<H>>,
    p: int,
    x: T,
    r: EventHandlerResult,
) -> bool {
    &&& m2.len() == m.len()
    &&& forall|t: int| 0 <= t < m.len() ==> #[trigger] walk_at(m, m2, p, x, r, t)
}

/// One registration: a record armed under the next free key, holding
/// exactly the registered handler, joins the staged sequence and nothing
/// else moves.
pub open spec fn register_step<T, H>(
    pre: EmView<T, H>,
    post: EmView<T, H>,
    once: bool,
    k: usize,
    h: H,
) -> bool {
    &&& pre.next_id < usize::MAX
    &&& k == pre.next_id
    &&& post.main == pre.main
    &&& post.pending == pre.pending.push(
        ListenerView { key: pre.next_id, once, active: true, handler: Some(h) },
    )
    &&& post.next_id == pre.next_id + 1
    &&& post.deliveries == pre.deliveries
}

/// One cancellation through a subscription keyed `k`: the record carrying
/// `k`, wherever it stands, is disarmed and its handler released; every
/// other record, the key counter and the log are untouched.  A key no record
/// carries cancels nothing.
pub open spec fn cancel_step<T, H>(pre: EmView<T, H>, post: EmView<T, H>, k: usize) -> bool {
    &&& post.main == cancel_in(pre.main, k)
    &&& post.pending == cancel_in(pre.pending, k)
    &&& post.next_id == pre.next_id
    &&& post.deliveries == pre.deliveries
}

/// One reset: every record is dropped at once.  The key counter is kept, so
/// outstanding subscriptions can never touch listeners registered later.
pub open spec fn reset_step<T, H>(pre: EmView<T, H>, post: EmView<T, H>) -> bool {
    &&& post.main.len() == 0
    &&& post.pending.len() == 0
    &&& post.next_id == pre.next_id
    &&& post.deliveries == pre.deliveries
}

/// One delivery pass of the value `x`, failing at position `p` of the merged
/// sequence (`p == merged().len()`: every invocation succeeded) and
/// returning `r` — the failing invocation's own result, unwrapped.  The
/// staged records are merged in first; the walk then treats every position
/// as `walk_at` says, the sweep keeps the still-armed records, the log gains
/// the pass's record, and afterwards the staging area holds exactly what
/// handlers registered during the pass: armed records under fresh keys — and
/// a pass that invoked nobody registered nobody.
pub open spec fn emit_step<T, H: EventHandler<T>>(
    pre: EmView<T, H>,
    post: EmView<T, H>,
    p: int,
    x: T,
    r: EventHandlerResult,
) -> bool {
    let m = pre.merged();
    &&& 0 <= p <= m.len()
    &&& (p < m.len() <==> r is Err)
    &&& p < m.len() ==> m[p].active
    &&& exists|m2: Seq<ListenerView<H>>|
        (#[trigger] walk_rel(m, m2, p, x, r)) && post.main == active_part(m2)
    &&& post.deliveries == pre.deliveries.push(
        PassRecord { message: x, calls: pass_calls(m, p, r) },
    )
    &&& reg_extended(
        RegView { pending: Seq::empty(), next_id: pre.next_id },
        RegView { pending: post.pending, next_id: post.next_id },
    )
    &&& (pass_calls(m, p, r).len() == 0 ==> post.pending.len() == 0 && post.next_id
        == pre.next_id)
}

/// No record carries key `k` any more, and `k` was already issued, so no
/// later registration can ever reuse it.
pub open spec fn absent<T, H>(v: EmView<T, H>, k: usize) -> bool {
    &&& !has_key(v.main, k)
    &&& !has_key(v.pending, k)
    &&& k < v.next_id
}

/// Every record carrying key `k` — there is at most one — is disarmed, and
/// `k` was already issued.
pub open spec fn dormant<T, H>(v: EmView<T, H>, k: usize) -> bool {
    &&& k < v.next_id
    &&& forall|i: int|
        0 <= i < v.main.len() && (#[trigger] v.main[i]).key == k ==> !v.main[i].active
    &&& forall|i: int|
        0 <= i < v.pending.len() && (#[trigger] v.pending[i]).key == k ==> !v.pending[i].active
}

/// Any one operation of the emitter.
pub open spec fn emitter_step<T, H: EventHandler<T>>(pre: EmView<T, H>, post: EmView<T, H>) -> bool {
    ||| (exists|once: bool, k: usize, h: H| register_step(pre, post, once, k, h))
    ||| (exists|k: usize| cancel_step(pre, post, k))
    ||| reset_step(pre, post)
    ||| (exists|p: int, x: T, r: EventHandlerResult| emit_step(pre, post, p, x, r))
}

/// The sequence a well-formed emitter's pass walks is itself well formed.
pub proof fn lemma_merged_ok<T, H>(v: EmView<T, H>)
    requires
        em_wf(v),
    ensures
        entries_ok(v.merged(), v.next_id),
        keys_distinct(v.merged()),
{
    assert forall|i: int| 0 <= i < v.merged().len() implies (#[trigger] v.merged()[i]).wf()
        && v.merged()[i].key < v.next_id by {
        if i < v.main.len() {
            assert(v.merged()[i] == v.main[i]);
        } else {
            assert(v.merged()[i] == v.pending[i - v.main.len()]);
        }
    }
}

/// What a partial pass has invoked: one succeeding invocation per armed
/// examined record, each key at most once.
pub proof fn lemma_calls_upto_props<H>(m: Seq<ListenerView<H>>, q: int)
    requires
        keys_distinct(m),
        0 <= q <= m.len(),
    ensures
        forall|i: int|
            0 <= i < calls_upto(m, q).len() ==> (#[trigger] calls_upto(m, q)[i]).result is Ok,
        forall|t: int|
            0 <= t < q && (#[trigger] m[t]).active ==> calls_key(calls_upto(m, q), m[t].key),
        forall|k: usize|
            calls_key(calls_upto(m, q), k) ==> exists|t: int|
                0 <= t < q && (#[trigger] m[t]).key == k && m[t].active,
        forall|i: int, j: int|
            #![trigger calls_upto(m, q)[i], calls_upto(m, q)[j]]
            0 <= i < j < calls_upto(m, q).len() ==> calls_upto(m, q)[i].key != calls_upto(m, q)[j].key,
    decreases q,
{
    if q > 0 {
        lemma_calls_upto_props(m, q - 1);
        let prev = calls_upto(m, q - 1);
        let cur = calls_upto(m, q);
        if m[q - 1].active {
            assert(cur == prev.push(CallRecord { key: m[q - 1].key, result: Ok(()) }));
            assert forall|t: int| 0 <= t < q && (#[trigger] m[t]).active implies calls_key(
                cur,
                m[t].key,
            ) by {
                if t < q - 1 {
                    assert(calls_key(prev, m[t].key));
                    let w = choose|w: int| 0 <= w < prev.len() && (#[trigger] prev[w]).key == m[t].key;
                    assert(cur[w].key == m[t].key);
                } else {
                    assert(cur[cur.len() - 1].key == m[t].key);
                }
            }
            assert forall|i: int, j: int|
                #![trigger cur[i], cur[j]]
                0 <= i < j < cur.len() implies cur[i].key != cur[j].key by {
                if j < cur.len() - 1 {
                    assert(prev[i] == cur[i] && prev[j] == cur[j]);
                } else {
                    assert(cur[j].key == m[q - 1].key);
                    assert(prev[i] == cur[i]);
                    assert(calls_key(prev, prev[i].key)) by {
                        assert(prev[i].key == prev[i].key);
                    }
                    let t = choose|t: int|
                        0 <= t < q - 1 && (#[trigger] m[t]).key == prev[i].key && m[t].active;
                    assert(m[t].key != m[q - 1].key);
                }
            }
        } else {
            assert(cur == prev);
            assert forall|t: int| 0 <= t < q && (#[trigger] m[t]).active implies calls_key(
                cur,
                m[t].key,
            ) by {
                assert(t != q - 1);
            }
        }
        assert forall|k: usize| calls_key(cur, k) implies exists|t: int|
            0 <= t < q && (#[trigger] m[t]).key == k && m[t].active by {
            let i = choose|i: int| 0 <= i < cur.len() && (#[trigger] cur[i]).key == k;
            if m[q - 1].active && i == cur.len() - 1 {
                assert(m[q - 1].key == k && m[q - 1].active);
            } else {
                assert(prev[i] == cur[i]);
                assert(calls_key(prev, k));
                let t = choose|t: int|
                    0 <= t < q - 1 && (#[trigger] m[t]).key == k && m[t].active;
                assert(0 <= t < q && m[t].key == k && m[t].active);
            }
        }
    }
}

/// Every key one pass invoked belongs to an armed record of the walked
/// sequence.
pub proof fn lemma_pass_calls_members<H>(
    m: Seq<ListenerView<H>>,
    p: int,
    r: EventHandlerResult,
    k: usize,
)
    requires
        keys_distinct(m),
        0 <= p <= m.len(),
        p < m.len() ==> m[p].active,
        calls_key(pass_calls(m, p, r), k),
    ensures
        exists|t: int| 0 <= t < m.len() && (#[trigger] m[t]).key == k && m[t].active,
{
    if p >= m.len() {
        lemma_calls_upto_props(m, m.len() as int);
    } else {
        lemma_calls_upto_props(m, p);
        let cs = pass_calls(m, p, r);
        let i = choose|i: int| 0 <= i < cs.len() && (#[trigger] cs[i]).key == k;
        if i < cs.len() - 1 {
            assert(calls_upto(m, p)[i] == cs[i]);
            assert(calls_key(calls_upto(m, p), k));
            let t = choose|t: int| 0 <= t < p && (#[trigger] m[t]).key == k && m[t].active;
            assert(0 <= t < m.len() && m[t].key == k && m[t].active);
        } else {
            assert(m[p].key == k && m[p].active);
        }
    }
}

/// What a partial pass has invoked, in the vocabulary of `Seq::filter`: one
/// invocation per armed record of the examined prefix, in order.
pub proof fn lemma_calls_upto_armed_keys<H>(m: Seq<ListenerView<H>>, q: int)
    requires
        0 <= q <= m.len(),
    ensures
        call_keys(calls_upto(m, q)) == armed_keys(m.take(q)),
    decreases q,
{
    reveal(Seq::filter);
    let armed = |l: ListenerView<H>| l.active;
    if q == 0 {
        assert(m.take(0) =~= Seq::<ListenerView<H>>::empty());
        assert(call_keys(calls_upto(m, 0)) =~= Seq::<usize>::empty());
        assert(armed_keys(m.take(0)) =~= Seq::<usize>::empty());
    } else {
        lemma_calls_upto_armed_keys(m, q - 1);
        let t = m.take(q);
        assert(t.drop_last() =~= m.take(q - 1));
        assert(t.last() == m[q - 1]);
        if m[q - 1].active {
            assert(t.filter(armed) == m.take(q - 1).filter(armed).push(m[q - 1]));
            assert(armed_keys(t) =~= armed_keys(m.take(q - 1)).push(m[q - 1].key));
            assert(call_keys(calls_upto(m, q)) =~= call_keys(calls_upto(m, q - 1)).push(
                m[q - 1].key,
            ));
        } else {
            assert(t.filter(armed) == m.take(q - 1).filter(armed));
            assert(call_keys(calls_upto(m, q)) == call_keys(calls_upto(m, q - 1)));
        }
    }
}

/// What survives a pass that failed at no examined position, in the
/// vocabulary of `Seq::filter`: the examined prefix's armed persistent
/// records, in order.
pub proof fn lemma_surv_upto_persistent<H>(m: Seq<ListenerView<H>>, p: int, q: int)
    requires
        0 <= q <= m.len(),
        q <= p,
    ensures
        surv_upto(m, p, q) == m.take(q).filter(|l: ListenerView<H>| l.active && !l.once),
    decreases q,
{
    reveal(Seq::filter);
    let kept = |l: ListenerView<H>| l.active && !l.once;
    if q == 0 {
        assert(m.take(0) =~= Seq::<ListenerView<H>>::empty());
        assert(surv_upto(m, p, 0) =~= m.take(0).filter(kept));
    } else {
        lemma_surv_upto_persistent(m, p, q - 1);
        let t = m.take(q);
        assert(t.drop_last() =~= m.take(q - 1));
        assert(t.last() == m[q - 1]);
        assert(keep_at(m, p, q - 1) == kept(m[q - 1]));
    }
}

/// The sweep keeps at most the records it examined.
pub proof fn lemma_active_upto_len<H>(s: Seq<ListenerView<H>>, q: int)
    requires
        0 <= q <= s.len(),
    ensures
        active_upto(s, q).len() <= q,
    decreases q,
{
    if q > 0 {
        lemma_active_upto_len(s, q - 1);
    }
}

/// Updating a record at or past the examined prefix does not change what
/// the sweep has kept of that prefix.
pub proof fn lemma_active_upto_update_beyond<H>(
    s: Seq<ListenerView<H>>,
    q: int,
    t: int,
    v: ListenerView<H>,
)
    requires
        0 <= q <= t < s.len(),
    ensures
        active_upto(s.update(t, v), q) == active_upto(s, q),
    decreases q,
{
    if q > 0 {
        lemma_active_upto_update_beyond(s, q - 1, t, v);
        assert(s.update(t, v)[q - 1] == s[q - 1]);
    }
}

/// What the sweep keeps: armed records of the walked sequence, no key
/// twice, every key one the sequence already carried, each record one of
/// the sequence's own.
pub proof fn lemma_active_upto_props<H>(s: Seq<ListenerView<H>>, q: int, bound: usize)
    requires
        keys_distinct(s),
        entries_ok(s, bound),
        0 <= q <= s.len(),
    ensures
        entries_ok(active_upto(s, q), bound),
        keys_distinct(active_upto(s, q)),
        forall|i: int| 0 <= i < active_upto(s, q).len() ==> (#[trigger] active_upto(s, q)[i]).active,
        forall|k: usize| has_key(active_upto(s, q), k) ==> has_key(s.take(q), k),
        forall|t: int|
            0 <= t < q && (#[trigger] s[t]).active ==> active_upto(s, q).contains(s[t]),
        forall|i: int|
            0 <= i < active_upto(s, q).len() ==> exists|t: int|
                0 <= t < q && (#[trigger] active_upto(s, q)[i]) == s[t] && s[t].active,
    decreases q,
{
    if q > 0 {
        lemma_active_upto_props(s, q - 1, bound);
        let prev = active_upto(s, q - 1);
        let cur = active_upto(s, q);
        assert forall|k: usize| has_key(prev, k) implies has_key(s.take(q), k) by {
            if has_key(prev, k) {
                assert(has_key(s.take(q - 1), k));
                let t = choose|t: int|
                    0 <= t < s.take(q - 1).len() && (#[trigger] s.take(q - 1)[t]).key == k;
                assert(s.take(q)[t].key == k);
            }
        }
        assert forall|t: int|
            0 <= t < q && (#[trigger] s[t]).active implies cur.contains(s[t]) by {
            if t < q - 1 {
                assert(prev.contains(s[t]));
                let w = choose|w: int| 0 <= w < prev.len() && prev[w] == s[t];
                assert(cur[w] == s[t]);
            } else {
                assert(cur[cur.len() - 1] == s[t]);
            }
        }
        assert forall|i: int| 0 <= i < cur.len() implies exists|t: int|
            0 <= t < q && (#[trigger] cur[i]) == s[t] && s[t].active by {
            if i < prev.len() {
                assert(prev[i] == cur[i]);
                let t = choose|t: int|
                    0 <= t < q - 1 && (#[trigger] prev[i]) == s[t] && s[t].active;
                assert(0 <= t < q && cur[i] == s[t] && s[t].active);
            } else {
                assert(s[q - 1].active);
                assert(cur[i] == s[q - 1]);
            }
        }
        if s[q - 1].active {
            assert(cur == prev.push(s[q - 1]));
            assert forall|i: int, j: int|
                #![trigger cur[i], cur[j]]
                0 <= i < j < cur.len() implies cur[i].key != cur[j].key by {
                if j < cur.len() - 1 {
                    assert(cur[i] == prev[i] && cur[j] == prev[j]);
                } else {
                    assert(cur[j] == s[q - 1]);
                    assert(cur[i] == prev[i]);
                    assert(has_key(prev, prev[i].key)) by {
                        assert(prev[i].key == prev[i].key);
                    }
                    assert(has_key(s.take(q - 1), prev[i].key));
                    let t = choose|t: int|
                        0 <= t < s.take(q - 1).len() && (#[trigger] s.take(q - 1)[t]).key
                            == prev[i].key;
                    assert(s[t] == s.take(q - 1)[t]);
                    assert(s[t].key != s[q - 1].key);
                }
            }
            assert forall|k: usize| has_key(cur, k) implies has_key(s.take(q), k) by {
                let i = choose|i: int| 0 <= i < cur.len() && (#[trigger] cur[i]).key == k;
                if i < cur.len() - 1 {
                    assert(prev[i].key == k);
                    assert(has_key(prev, k));
                } else {
                    assert(s.take(q)[q - 1].key == k);
                }
            }
        } else {
            assert(cur == prev);
        }
    }
}

/// The walk preserves every record's key and one-shot flag, leaves armed
/// exactly the records the pass keeps, each still holding a handler, and so
/// preserves well-formedness and key distinctness.
pub proof fn lemma_walk_shape<T, H: EventHandler<T>>(
    m: Seq<ListenerView<H>>,
    m2: Seq<ListenerView<H>>,
    p: int,
    x: T,
    r: EventHandlerResult,
    bound: usize,
)
    requires
        walk_rel(m, m2, p, x, r),
        entries_ok(m, bound),
        keys_distinct(m),
    ensures
        m2.len() == m.len(),
        entries_ok(m2, bound),
        keys_distinct(m2),
        forall|t: int|
            0 <= t < m.len() ==> (#[trigger] m2[t]).key == m[t].key && m2[t].once == m[t].once
                && m2[t].active == keep_at(m, p, t),
{
    assert forall|t: int|
        0 <= t < m.len() implies (#[trigger] m2[t]).key == m[t].key && m2[t].once == m[t].once
        && m2[t].active == keep_at(m, p, t) && m2[t].wf() by {
        assert(walk_at(m, m2, p, x, r, t));
        assert(m[t].wf());
    }
    assert forall|i: int, j: int|
        #![trigger m2[i], m2[j]]
        0 <= i < j < m2.len() implies m2[i].key != m2[j].key by {
        assert(m[i].key != m[j].key);
    }
}

/// Aligns the sweep's outcome with the kept positions of the pre-walk
/// sequence: both keep the same positions in the same order, and each kept
/// pair of records (as it stood before the walk, as the walk left it)
/// satisfies `rel` whenever `rel` holds pointwise at the kept positions.
pub proof fn lemma_sweep_aligned<H>(
    m: Seq<ListenerView<H>>,
    m2: Seq<ListenerView<H>>,
    p: int,
    q: int,
    rel: spec_fn(ListenerView<H>, ListenerView<H>) -> bool,
)
    requires
        m2.len() == m.len(),
        0 <= q <= m.len(),
        forall|t: int| 0 <= t < q ==> (#[trigger] m2[t]).active == keep_at(m, p, t),
        forall|t: int| 0 <= t < q && #[trigger] keep_at(m, p, t) ==> rel(m[t], m2[t]),
    ensures
        active_upto(m2, q).len() == surv_upto(m, p, q).len(),
        forall|i: int|
            0 <= i < surv_upto(m, p, q).len() ==> #[trigger] rel(
                surv_upto(m, p, q)[i],
                active_upto(m2, q)[i],
            ),
    decreases q,
{
    if q > 0 {
        lemma_sweep_aligned(m, m2, p, q - 1, rel);
        let sp = surv_upto(m, p, q - 1);
        let ap = active_upto(m2, q - 1);
        if keep_at(m, p, q - 1) {
            assert(m2[q - 1].active);
            assert(surv_upto(m, p, q) == sp.push(m[q - 1]));
            assert(active_upto(m2, q) == ap.push(m2[q - 1]));
            assert forall|i: int| 0 <= i < surv_upto(m, p, q).len() implies #[trigger] rel(
                surv_upto(m, p, q)[i],
                active_upto(m2, q)[i],
            ) by {
                if i < sp.len() {
                    assert(surv_upto(m, p, q)[i] == sp[i]);
                    assert(active_upto(m2, q)[i] == ap[i]);
                    assert(rel(sp[i], ap[i]));
                } else {
                    assert(rel(m[q - 1], m2[q - 1]));
                }
            }
        } else {
            assert(!m2[q - 1].active);
            assert(surv_upto(m, p, q) == sp);
            assert(active_upto(m2, q) == ap);
        }
    }
}

/// Registration preserves the emitter's invariant.
pub proof fn lemma_register_preserves_wf<T, H>(
    pre: EmView<T, H>,
    post: EmView<T, H>,
    once: bool,
    k: usize,
    h: H,
)
    requires
        em_wf(pre),
        register_step(pre, post, once, k, h),
    ensures
        em_wf(post),
{
    let all0 = pre.main + pre.pending;
    let all1 = post.main + post.pending;
    assert(all1 =~= all0.push(
        ListenerView { key: pre.next_id, once, active: true, handler: Some(h) },
    ));
    assert forall|i: int, j: int|
        #![trigger all1[i], all1[j]]
        0 <= i < j < all1.len() implies all1[i].key != all1[j].key by {
        if j < all1.len() - 1 {
            assert(all1[i] == all0[i] && all1[j] == all0[j]);
        } else {
            assert(all1[i] == all0[i]);
            if i < pre.main.len() {
                assert(all0[i] == pre.main[i]);
            } else {
                assert(all0[i] == pre.pending[i - pre.main.len()]);
            }
            assert(all1[i].key < pre.next_id);
        }
    }
    assert(entries_ok(post.main, post.next_id)) by {
        assert(forall|i: int|
            0 <= i < post.main.len() ==> (#[trigger] post.main[i]) == pre.main[i]);
    }
    assert forall|i: int| 0 <= i < post.pending.len() implies (#[trigger] post.pending[i]).wf()
        && post.pending[i].key < post.next_id by {
        if i < pre.pending.len() {
            assert(post.pending[i] == pre.pending[i]);
        }
    }
}

/// Cancellation preserves the emitter's invariant.
pub proof fn lemma_cancel_preserves_wf<T, H>(pre: EmView<T, H>, post: EmView<T, H>, k: usize)
    requires
        em_wf(pre),
        cancel_step(pre, post, k),
    ensures
        em_wf(post),
{
    let all0 = pre.main + pre.pending;
    let all1 = post.main + post.pending;
    assert(all1 =~= cancel_in(all0, k)) by {
        assert forall|i: int| 0 <= i < all1.len() implies all1[i] == cancel_in(all0, k)[i] by {
            if i < post.main.len() {
                assert(all1[i] == post.main[i]);
                assert(all0[i] == pre.main[i]);
            } else {
                assert(all1[i] == post.pending[i - post.main.len()]);
                assert(all0[i] == pre.pending[i - pre.main.len()]);
            }
        }
    }
    assert forall|i: int, j: int|
        #![trigger all1[i], all1[j]]
        0 <= i < j < all1.len() implies all1[i].key != all1[j].key by {
        assert(all1[i].key == all0[i].key && all1[j].key == all0[j].key);
    }
    assert forall|i: int| 0 <= i < post.main.len() implies (#[trigger] post.main[i]).wf()
        && post.main[i].key < post.next_id by {
        assert(pre.main[i].wf() && pre.main[i].key < pre.next_id);
    }
    assert forall|i: int| 0 <= i < post.pending.len() implies (#[trigger] post.pending[i]).wf()
        && post.pending[i].key < post.next_id by {
        assert(pre.pending[i].wf() && pre.pending[i].key < pre.next_id);
    }
}

/// A reset leaves a trivially well-formed emitter.
pub proof fn lemma_reset_preserves_wf<T, H>(pre: EmView<T, H>, post: EmView<T, H>)
    requires
        reset_step(pre, post),
    ensures
        em_wf(post),
{
}

/// A delivery pass preserves the emitter's invariant.
pub proof fn lemma_emit_preserves_wf<T, H: EventHandler<T>>(
    pre: EmView<T, H>,
    post: EmView<T, H>,
    p: int,
    x: T,
    r: EventHandlerResult,
)
    requires
        em_wf(pre),
        emit_step(pre, post, p, x, r),
    ensures
        em_wf(post),
{
    let m = pre.merged();
    lemma_merged_ok(pre);
    let m2 = choose|m2: Seq<ListenerView<H>>|
        (#[trigger] walk_rel(m, m2, p, x, r)) && post.main == active_part(m2);
    lemma_walk_shape(m, m2, p, x, r, pre.next_id);
    lemma_active_upto_props(m2, m2.len() as int, pre.next_id);
    lemma_active_upto_len(m2, m2.len() as int);
    assert(entries_ok(post.main, post.next_id)) by {
        assert(forall|i: int|
            0 <= i < post.main.len() ==> (#[trigger] post.main[i]).wf() && post.main[i].key
                < pre.next_id);
    }
    assert(entries_ok(post.pending, post.next_id)) by {
        assert(forall|i: int|
            0 <= i < post.pending.len() ==> (#[trigger] post.pending[i]).active
                && post.pending[i].handler is Some && pre.next_id <= post.pending[i].key
                < post.next_id);
    }
    let all1 = post.main + post.pending;
    assert forall|i: int, j: int|
        #![trigger all1[i], all1[j]]
        0 <= i < j < all1.len() implies all1[i].key != all1[j].key by {
        if j < post.main.len() {
            assert(all1[i] == post.main[i] && all1[j] == post.main[j]);
        } else if i >= post.main.len() {
            assert(all1[i] == post.pending[i - post.main.len()]);
            assert(all1[j] == post.pending[j - post.main.len()]);
        } else {
            assert(all1[i] == post.main[i] && all1[j] == post.pending[j - post.main.len()]);
            assert(all1[i].key < pre.next_id);
            assert(all1[j].key >= pre.next_id);
        }
    }
    assert(post.main.len() + post.pending.len() <= post.next_id) by {
        assert(post.main.len() <= m2.len());
        assert(m.len() == pre.main.len() + pre.pending.len());
        assert(post.pending.len() <= post.next_id - pre.next_id);
    }
}

/// Every operation preserves the emitter's invariant.
pub proof fn lemma_step_preserves_wf<T, H: EventHandler<T>>(pre: EmView<T, H>, post: EmView<T, H>)
    requires
        em_wf(pre),
        emitter_step(pre, post),
    ensures
        em_wf(post),
{
    if exists|once: bool, k: usize, h: H| register_step(pre, post, once, k, h) {
        let (once, k, h) = choose|once: bool, k: usize, h: H| register_step(pre, post, once, k, h);
        lemma_register_preserves_wf(pre, post, once, k, h);
    } else if exists|k: usize| cancel_step(pre, post, k) {
        let k = choose|k: usize| cancel_step(pre, post, k);
        lemma_cancel_preserves_wf(pre, post, k);
    } else if reset_step(pre, post) {
        lemma_reset_preserves_wf(pre, post);
    } else {
        let (p, x, r) = choose|p: int, x: T, r: EventHandlerResult| emit_step(pre, post, p, x, r);
        lemma_emit_preserves_wf(pre, post, p, x, r);
    }
}

} // verus!
