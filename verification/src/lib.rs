//! An in-process publish/subscribe primitive: a registry of callback
//! listeners on a single event channel, with ordered delivery, one-shot
//! listeners, idempotent cancellation handles, and safe re-registration
//! while an emission is in progress.

mod event;
mod event_emitter;
mod laws;
mod listener;
mod model;
mod observer;
mod registrar;
mod subscription;

pub use event::{Event, EventView};
pub use event_emitter::EventEmitter;
pub use laws::{
    lemma_absent_preserved, lemma_all_ok_emits_ok, lemma_cancel_absent_noop,
    lemma_cancel_disarms, lemma_cancelled_not_called, lemma_deliveries_append_only,
    lemma_delivery_exactly_once, lemma_dormant_preserved, lemma_emit_without_armed,
    lemma_error_stops_pass, lemma_once_exhausted, lemma_once_not_called_again,
    lemma_reentrant_deferred, lemma_reentrant_visible_next, lemma_reset_finalizes,
};
pub use listener::{
    cancel_in, entries_ok, has_key, keys_distinct, CountingHandler, EventHandler,
    EventHandlerResult, HandlerError, Listener, ListenerView,
};
pub use model::{
    absent, active_part, active_upto, armed_keys, call_keys, calls_key, calls_upto, cancel_step,
    dormant, em_wf, emit_step, emitter_step, keep_at, lemma_step_preserves_wf, pass_calls,
    persistent_part, register_step, reset_step, surv_upto, walk_at, walk_rel, CallRecord, EmView,
    PassRecord,
};
pub use observer::Observer;
pub use registrar::{reg_extended, RegView, Registrar};
pub use subscription::Subscription;
