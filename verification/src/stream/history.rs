//! What holds of the counters of a transfer whatever happened to it.

use crate::stream::info::ObjectTransmissionInformation;
use crate::stream::raptor;
use crate::stream::telemetry::TelemetryCounts;
use crate::time::Instant;
use vstd::prelude::*;

verus! {

/// What may happen to the counters of a transfer: one event for each of their operations.
pub enum TelemetryEvent {
    /// A transfer was started.
    Started { config: ObjectTransmissionInformation, now: Instant },
    /// A data frame was taken.
    Ingested,
    /// A data frame was lost.
    Dropped,
    /// Data frames were copied.
    Duplicated { count: u64 },
    /// A data frame changed places with another.
    Reordered,
    /// An acknowledgement was sent.
    AckSent,
}

impl TelemetryEvent {
    /// How many data frames the event takes.
    pub open spec fn ingests(self) -> nat {
        if self is Ingested {
            1
        } else {
            0
        }
    }

    /// How many data frames the event loses.
    pub open spec fn drops(self) -> nat {
        if self is Dropped {
            1
        } else {
            0
        }
    }

    /// How many copies of data frames the event makes.
    pub open spec fn duplicates(self) -> nat {
        match self {
            TelemetryEvent::Duplicated { count } => count as nat,
            _ => 0,
        }
    }

    /// How many data frames the event moves.
    pub open spec fn reorders(self) -> nat {
        if self is Reordered {
            1
        } else {
            0
        }
    }

    /// How many acknowledgements the event sends.
    pub open spec fn acks(self) -> nat {
        if self is AckSent {
            1
        } else {
            0
        }
    }

    /// Whether the event can happen to some counters: they can count it, and what is started has
    /// symbols.
    pub open spec fn can_happen(self, counts: TelemetryCounts) -> bool {
        match self {
            TelemetryEvent::Started { config, .. } => config.symbol_size != 0,
            _ => {
                &&& counts.data_frames_ingested + self.ingests() <= u64::MAX
                &&& counts.data_frames_dropped + self.drops() <= u64::MAX
                &&& counts.data_frames_duplicated + self.duplicates() <= u64::MAX
                &&& counts.data_frames_reordered + self.reorders() <= u64::MAX
                &&& counts.control_acks_sent + self.acks() <= u64::MAX
            },
        }
    }

    /// The counters once the event has happened.
    pub open spec fn after(self, counts: TelemetryCounts) -> TelemetryCounts {
        match self {
            TelemetryEvent::Started { config, now } => TelemetryCounts::started(config, now),
            TelemetryEvent::Ingested => TelemetryCounts {
                data_frames_ingested: (counts.data_frames_ingested + 1) as u64,
                ..counts
            },
            TelemetryEvent::Dropped => TelemetryCounts {
                data_frames_dropped: (counts.data_frames_dropped + 1) as u64,
                ..counts
            },
            TelemetryEvent::Duplicated { count } => TelemetryCounts {
                data_frames_duplicated: (counts.data_frames_duplicated + count) as u64,
                ..counts
            },
            TelemetryEvent::Reordered => TelemetryCounts {
                data_frames_reordered: (counts.data_frames_reordered + 1) as u64,
                ..counts
            },
            TelemetryEvent::AckSent => TelemetryCounts {
                control_acks_sent: (counts.control_acks_sent + 1) as u64,
                ..counts
            },
        }
    }
}

/// The counters after all of some events, in order.
pub open spec fn after_all(counts: TelemetryCounts, events: Seq<TelemetryEvent>) -> TelemetryCounts
    decreases events.len(),
{
    if events.len() == 0 {
        counts
    } else {
        events.last().after(after_all(counts, events.drop_last()))
    }
}

/// Whether the events can happen one after the other.
pub open spec fn can_all_happen(counts: TelemetryCounts, events: Seq<TelemetryEvent>) -> bool
    decreases events.len(),
{
    events.len() > 0 ==> {
        &&& can_all_happen(counts, events.drop_last())
        &&& events.last().can_happen(after_all(counts, events.drop_last()))
    }
}

/// What some events add up to.
pub open spec fn total(events: Seq<TelemetryEvent>, amount: spec_fn(TelemetryEvent) -> nat) -> nat
    decreases events.len(),
{
    if events.len() == 0 {
        0
    } else {
        total(events.drop_last(), amount) + amount(events.last())
    }
}

/// Counters grow by what the events add up to, as long as no transfer is started.
proof fn lemma_counted(counts: TelemetryCounts, events: Seq<TelemetryEvent>)
    requires
        can_all_happen(counts, events),
        forall|i: int| 0 <= i < events.len() ==> #[trigger] events[i] !is Started,
    ensures
        ({
            let after = after_all(counts, events);
            &&& after.start_at == counts.start_at
            &&& after.transfer_length == counts.transfer_length
            &&& after.symbol_size == counts.symbol_size
            &&& after.min_symbols_required == counts.min_symbols_required
            &&& after.data_frames_ingested == counts.data_frames_ingested + total(
                events,
                |e: TelemetryEvent| e.ingests(),
            )
            &&& after.data_frames_dropped == counts.data_frames_dropped + total(
                events,
                |e: TelemetryEvent| e.drops(),
            )
            &&& after.data_frames_duplicated == counts.data_frames_duplicated + total(
                events,
                |e: TelemetryEvent| e.duplicates(),
            )
            &&& after.data_frames_reordered == counts.data_frames_reordered + total(
                events,
                |e: TelemetryEvent| e.reorders(),
            )
            &&& after.control_acks_sent == counts.control_acks_sent + total(
                events,
                |e: TelemetryEvent| e.acks(),
            )
        }),
    decreases events.len(),
{
    if events.len() > 0 {
        let rest = events.drop_last();
        assert forall|i: int| 0 <= i < rest.len() implies #[trigger] rest[i] !is Started by {
            assert(rest[i] == events[i]);
        }
        lemma_counted(counts, rest);
        assert(events.last() == events[events.len() - 1]);
    }
}

/// The events of a history are those of its first part and then those of the rest.
proof fn lemma_split(counts: TelemetryCounts, events: Seq<TelemetryEvent>, n: int)
    requires
        0 <= n <= events.len(),
        can_all_happen(counts, events),
    ensures
        can_all_happen(counts, events.take(n)),
        can_all_happen(after_all(counts, events.take(n)), events.skip(n)),
        after_all(counts, events) == after_all(after_all(counts, events.take(n)), events.skip(n)),
    decreases events.len(),
{
    if n == events.len() {
        assert(events.take(n) =~= events);
        assert(events.skip(n) =~= Seq::empty());
    } else {
        let rest = events.drop_last();
        lemma_split(counts, rest, n);
        assert(rest.take(n) =~= events.take(n));
        assert(events.skip(n).drop_last() =~= rest.skip(n));
        assert(events.skip(n).last() == events.last());
    }
}

/// Whatever happens to the counters of a transfer, after the last start they tell of what was
/// started, and each of the five counts is what the events since that start add up to.
pub proof fn law_counters_add_up(
    counts: TelemetryCounts,
    events: Seq<TelemetryEvent>,
    start: int,
)
    requires
        can_all_happen(counts, events),
        0 <= start < events.len(),
        events[start] is Started,
        forall|i: int| start < i < events.len() ==> #[trigger] events[i] !is Started,
    ensures
        ({
            let after = after_all(counts, events);
            let since = events.skip(start + 1);
            let config = events[start]->config;
            &&& after.start_at == Some(events[start]->now)
            &&& after.transfer_length == config.transfer_length
            &&& after.symbol_size == config.symbol_size
            &&& after.min_symbols_required == raptor::div_ceil(
                config.transfer_length as nat,
                config.symbol_size as nat,
            )
            &&& after.data_frames_ingested == total(since, |e: TelemetryEvent| e.ingests())
            &&& after.data_frames_dropped == total(since, |e: TelemetryEvent| e.drops())
            &&& after.data_frames_duplicated == total(since, |e: TelemetryEvent| e.duplicates())
            &&& after.data_frames_reordered == total(since, |e: TelemetryEvent| e.reorders())
            &&& after.control_acks_sent == total(since, |e: TelemetryEvent| e.acks())
        }),
{
    let since = events.skip(start + 1);
    let first = events.take(start + 1);
    lemma_split(counts, events, start + 1);
    assert(first.last() == events[start]);
    assert forall|i: int| 0 <= i < since.len() implies #[trigger] since[i] !is Started by {
        assert(since[i] == events[start + 1 + i]);
    }
    lemma_counted(after_all(counts, first), since);
    let len = events[start]->config.transfer_length;
    let size = events[start]->config.symbol_size;
    assert(raptor::div_ceil(len as nat, size as nat) <= len) by {
        raptor::lemma_div_ceil_bound(len as nat, size as nat);
    }
}

/// What is told of a transfer in the end is what was started last, how many whole milliseconds have
/// gone by since, what the events since then add up to, and when, with whom and with how many bytes
/// it ended.
pub proof fn law_metrics_tell_of_the_events(
    counts: TelemetryCounts,
    events: Seq<TelemetryEvent>,
    start: int,
    peer: String,
    session_id: u64,
    decoded_bytes: usize,
    now: Instant,
    reading: Option<(u64, u32)>,
)
    requires
        can_all_happen(counts, events),
        0 <= start < events.len(),
        events[start] is Started,
        forall|i: int| start < i < events.len() ==> #[trigger] events[i] !is Started,
    ensures
        ({
            let told = after_all(counts, events).told(
                peer,
                session_id,
                decoded_bytes,
                now,
                reading,
            );
            let since = events.skip(start + 1);
            let config = events[start]->config;
            &&& told.transfer_length == config.transfer_length
            &&& told.symbol_size == config.symbol_size
            &&& told.min_symbols_required == raptor::div_ceil(
                config.transfer_length as nat,
                config.symbol_size as nat,
            )
            &&& told.recovery_time_ms == if now.nanos >= events[start]->now.nanos {
                (now.nanos - events[start]->now.nanos) / 1_000_000
            } else {
                0
            }
            &&& told.finished_at_unix_ms == match reading {
                Some((secs, subsec_nanos)) => (secs * 1_000_000_000 + subsec_nanos) / 1_000_000,
                None => 0,
            }
            &&& told.peer == peer
            &&& told.session_id == session_id
            &&& told.decoded_bytes == decoded_bytes
            &&& told.data_frames_ingested == total(since, |e: TelemetryEvent| e.ingests())
            &&& told.data_frames_dropped == total(since, |e: TelemetryEvent| e.drops())
            &&& told.data_frames_duplicated == total(since, |e: TelemetryEvent| e.duplicates())
            &&& told.data_frames_reordered == total(since, |e: TelemetryEvent| e.reorders())
            &&& told.control_acks_sent == total(since, |e: TelemetryEvent| e.acks())
        }),
{
    law_counters_add_up(counts, events, start);
}

/// Without a start, the counters of a new transfer tell of none, and each of the five counts is
/// what the events add up to.
pub proof fn law_nothing_is_told_before_a_start(events: Seq<TelemetryEvent>)
    requires
        can_all_happen(TelemetryCounts::zero(), events),
        forall|i: int| 0 <= i < events.len() ==> #[trigger] events[i] !is Started,
    ensures
        ({
            let after = after_all(TelemetryCounts::zero(), events);
            &&& after.start_at is None
            &&& after.data_frames_ingested == total(events, |e: TelemetryEvent| e.ingests())
            &&& after.data_frames_dropped == total(events, |e: TelemetryEvent| e.drops())
            &&& after.data_frames_duplicated == total(events, |e: TelemetryEvent| e.duplicates())
            &&& after.data_frames_reordered == total(events, |e: TelemetryEvent| e.reorders())
            &&& after.control_acks_sent == total(events, |e: TelemetryEvent| e.acks())
        }),
{
    lemma_counted(TelemetryCounts::zero(), events);
}

} // verus!
