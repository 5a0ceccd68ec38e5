//! Matching of the begin and end events of asynchronous spans, and the
//! statistics gathered over the events of a block.

use std::collections::HashMap;
use vstd::prelude::*;

verus! {

broadcast use {
    vstd::std_specs::hash::group_hash_axioms,
    vstd::std_specs::hash::axiom_u64_obeys_hash_table_key_model,
    vstd::std_specs::hash::axiom_random_state_builds_valid_hashers,
};

/// The first event seen of a span whose other event has not come yet.
#[derive(Clone, Copy, Debug, PartialEq, Eq, Structural)]
pub enum SpanEvent {
    Begin,
    End,
}

/// Why a block of span events is malformed.
#[derive(Clone, Copy, Debug, PartialEq, Eq, Structural)]
pub enum SpanError {
    /// A second begin event for the span.
    DuplicateBegin(u64),
    /// A second end event for the span.
    DuplicateEnd(u64),
}

/// Pairs the begin and end events of asynchronous spans, which may come in
/// either order.
pub struct AsyncSpanMatcher {
    unmatched_events: HashMap<u64, SpanEvent>,
}

impl AsyncSpanMatcher {
    /// The spans with one event seen, and which.
    pub closed spec fn unmatched(self) -> Map<u64, SpanEvent> {
        self.unmatched_events@
    }

    pub fn new() -> (r: Self)
        ensures
            r.unmatched() == Map::<u64, SpanEvent>::empty(),
    {
        AsyncSpanMatcher { unmatched_events: HashMap::new() }
    }

    fn on_event(&mut self, span_id: u64, event: SpanEvent) -> (r: Result<bool, SpanError>)
        ensures
            old(self).unmatched().contains_key(span_id) ==> final(self).unmatched() == old(self).unmatched().remove(span_id),
            !old(self).unmatched().contains_key(span_id) ==> final(self).unmatched() == old(self).unmatched().insert(span_id, event),
            r == if !old(self).unmatched().contains_key(span_id) {
                Ok::<bool, SpanError>(false)
            } else if old(self).unmatched()[span_id] != event {
                Ok::<bool, SpanError>(true)
            } else if event == SpanEvent::Begin {
                Err::<bool, SpanError>(SpanError::DuplicateBegin(span_id))
            } else {
                Err::<bool, SpanError>(SpanError::DuplicateEnd(span_id))
            },
    {
        match self.unmatched_events.remove(&span_id) {
            Some(previous) => {
                if previous == event {
                    match event {
                        SpanEvent::Begin => Err(SpanError::DuplicateBegin(span_id)),
                        SpanEvent::End => Err(SpanError::DuplicateEnd(span_id)),
                    }
                } else {
                    Ok(true)
                }
            },
            None => {
                self.unmatched_events.insert(span_id, event);
                Ok(false)
            },
        }
    }

    /// A span begins. If its end was seen, the span is complete (`true`) and
    /// forgotten; a second begin is an error, and the span is forgotten too;
    /// otherwise the begin waits for its end (`false`).
    pub fn on_begin_async_scope(&mut self, span_id: u64) -> (r: Result<bool, SpanError>)
        ensures
            old(self).unmatched().contains_key(span_id) ==> final(self).unmatched() == old(self).unmatched().remove(span_id),
            !old(self).unmatched().contains_key(span_id) ==> final(self).unmatched() == old(self).unmatched().insert(span_id, SpanEvent::Begin),
            r == if !old(self).unmatched().contains_key(span_id) {
                Ok::<bool, SpanError>(false)
            } else if old(self).unmatched()[span_id] == SpanEvent::End {
                Ok::<bool, SpanError>(true)
            } else {
                Err::<bool, SpanError>(SpanError::DuplicateBegin(span_id))
            },
    {
        self.on_event(span_id, SpanEvent::Begin)
    }

    /// A span ends. If its begin was seen, the span is complete (`true`) and
    /// forgotten; a second end is an error, and the span is forgotten too;
    /// otherwise the end waits for its begin (`false`).
    pub fn on_end_async_scope(&mut self, span_id: u64) -> (r: Result<bool, SpanError>)
        ensures
            old(self).unmatched().contains_key(span_id) ==> final(self).unmatched() == old(self).unmatched().remove(span_id),
            !old(self).unmatched().contains_key(span_id) ==> final(self).unmatched() == old(self).unmatched().insert(span_id, SpanEvent::End),
            r == if !old(self).unmatched().contains_key(span_id) {
                Ok::<bool, SpanError>(false)
            } else if old(self).unmatched()[span_id] == SpanEvent::Begin {
                Ok::<bool, SpanError>(true)
            } else {
                Err::<bool, SpanError>(SpanError::DuplicateEnd(span_id))
            },
    {
        self.on_event(span_id, SpanEvent::End)
    }

    /// Whether `span_id` waits for its other event.
    pub fn is_unmatched(&self, span_id: u64) -> (r: bool)
        ensures
            r == self.unmatched().contains_key(span_id),
    {
        self.unmatched_events.contains_key(&span_id)
    }
}

/// Statistics over the asynchronous events of a block: the earliest and
/// latest time stamp relative to the process start, and the number of
/// events.
pub struct StatsProcessor {
    pub process_start_ts: i64,
    pub min_ts: i64,
    pub max_ts: i64,
    pub nb_events: u64,
}

impl StatsProcessor {
    /// No event yet: the earliest time is the largest value and the latest
    /// the smallest, so that any event replaces them.
    pub fn new(process_start_ts: i64) -> (r: Self)
        ensures
            r.process_start_ts == process_start_ts,
            r.min_ts == i64::MAX,
            r.max_ts == i64::MIN,
            r.nb_events == 0,
    {
        StatsProcessor { process_start_ts, min_ts: i64::MAX, max_ts: i64::MIN, nb_events: 0 }
    }

    fn on_event(&mut self, ts: i64)
        requires
            i64::MIN <= ts - old(self).process_start_ts <= i64::MAX,
            old(self).nb_events < u64::MAX,
        ensures
            final(self).process_start_ts == old(self).process_start_ts,
            final(self).min_ts == if ts - old(self).process_start_ts < old(self).min_ts {
                ts - old(self).process_start_ts
            } else {
                old(self).min_ts as int
            },
            final(self).max_ts == if ts - old(self).process_start_ts > old(self).max_ts {
                ts - old(self).process_start_ts
            } else {
                old(self).max_ts as int
            },
            final(self).nb_events == old(self).nb_events + 1,
    {
        let relative_ts = ts - self.process_start_ts;
        if relative_ts < self.min_ts {
            self.min_ts = relative_ts;
        }
        if relative_ts > self.max_ts {
            self.max_ts = relative_ts;
        }
        self.nb_events = self.nb_events + 1;
    }

    /// Counts a span's begin at `ts`.
    pub fn on_begin_async_scope(&mut self, ts: i64)
        requires
            i64::MIN <= ts - old(self).process_start_ts <= i64::MAX,
            old(self).nb_events < u64::MAX,
        ensures
            final(self).process_start_ts == old(self).process_start_ts,
            final(self).min_ts == if ts - old(self).process_start_ts < old(self).min_ts {
                ts - old(self).process_start_ts
            } else {
                old(self).min_ts as int
            },
            final(self).max_ts == if ts - old(self).process_start_ts > old(self).max_ts {
                ts - old(self).process_start_ts
            } else {
                old(self).max_ts as int
            },
            final(self).nb_events == old(self).nb_events + 1,
    {
        self.on_event(ts)
    }

    /// Counts a span's end at `ts`.
    pub fn on_end_async_scope(&mut self, ts: i64)
        requires
            i64::MIN <= ts - old(self).process_start_ts <= i64::MAX,
            old(self).nb_events < u64::MAX,
        ensures
            final(self).process_start_ts == old(self).process_start_ts,
            final(self).min_ts == if ts - old(self).process_start_ts < old(self).min_ts {
                ts - old(self).process_start_ts
            } else {
                old(self).min_ts as int
            },
            final(self).max_ts == if ts - old(self).process_start_ts > old(self).max_ts {
                ts - old(self).process_start_ts
            } else {
                old(self).max_ts as int
            },
            final(self).nb_events == old(self).nb_events + 1,
    {
        self.on_event(ts)
    }
}

/// The two events of a span, in either order, complete it on the second
/// one and leave the other unmatched spans as they were.
pub proof fn lemma_span_pair_restores(m: Map<u64, SpanEvent>, id: u64, first: SpanEvent)
    requires
        !m.contains_key(id),
    ensures
        m.insert(id, first).contains_key(id),
        m.insert(id, first)[id] == first,
        m.insert(id, first).remove(id) == m,
{
    assert(m.insert(id, first).remove(id) =~= m);
}

} // verus!
