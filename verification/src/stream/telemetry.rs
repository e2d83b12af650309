//! What a transfer counts, and what is told of it in the end.

use crate::stream::history::TelemetryEvent;
use crate::stream::info::ObjectTransmissionInformation;
use crate::stream::raptor;
use crate::stream::raptor::ceil_div;
use crate::time;
use crate::time::{Clock, Instant};
use vstd::prelude::*;

verus! {

/// What is told of a transfer in the end.
#[derive(Debug, Clone)]
pub struct StreamMetrics {
    pub finished_at_unix_ms: u128,
    pub peer: String,
    pub session_id: u64,
    pub transfer_length: u64,
    pub symbol_size: u16,
    pub min_symbols_required: u64,
    pub data_frames_ingested: u64,
    pub data_frames_dropped: u64,
    pub data_frames_duplicated: u64,
    pub data_frames_reordered: u64,
    pub control_acks_sent: u64,
    pub recovery_time_ms: u128,
    pub decoded_bytes: usize,
}

/// The counters of a transfer. It starts and ends at moments of its clock: a moment that is handed
/// in is one that this clock, or a copy of it, has read.
#[derive(Debug)]
pub struct StreamTelemetry {
    counts: TelemetryCounts,
    clock: Clock,
}

/// When a transfer started, what it transfers, and what was counted since.
#[derive(Debug, Clone, Copy)]
pub struct TelemetryCounts {
    pub start_at: Option<Instant>,
    pub transfer_length: u64,
    pub symbol_size: u16,
    pub min_symbols_required: u64,
    pub data_frames_ingested: u64,
    pub data_frames_dropped: u64,
    pub data_frames_duplicated: u64,
    pub data_frames_reordered: u64,
    pub control_acks_sent: u64,
}

impl View for StreamTelemetry {
    type V = TelemetryCounts;

    closed spec fn view(&self) -> TelemetryCounts {
        self.counts
    }
}

impl TelemetryCounts {
    /// Nothing was started or counted.
    pub open spec fn zero() -> TelemetryCounts {
        TelemetryCounts {
            start_at: None,
            transfer_length: 0,
            symbol_size: 0,
            min_symbols_required: 0,
            data_frames_ingested: 0,
            data_frames_dropped: 0,
            data_frames_duplicated: 0,
            data_frames_reordered: 0,
            control_acks_sent: 0,
        }
    }

    /// A transfer of this object was started, and nothing counted yet. No fewer symbols than its
    /// length fills can bring it over.
    pub open spec fn started(config: ObjectTransmissionInformation, now: Instant) -> TelemetryCounts {
        TelemetryCounts {
            start_at: Some(now),
            transfer_length: config.transfer_length,
            symbol_size: config.symbol_size,
            min_symbols_required: raptor::div_ceil(
                config.transfer_length as nat,
                config.symbol_size as nat,
            ) as u64,
            ..TelemetryCounts::zero()
        }
    }

    /// What is told of a transfer that was started and ends at the moment `now`, when the wall
    /// clock reads `reading`.
    pub open spec fn told(
        self,
        peer: String,
        session_id: u64,
        decoded_bytes: usize,
        now: Instant,
        reading: Option<(u64, u32)>,
    ) -> StreamMetrics {
        StreamMetrics {
            finished_at_unix_ms: time::epoch_millis(reading) as u128,
            peer,
            session_id,
            transfer_length: self.transfer_length,
            symbol_size: self.symbol_size,
            min_symbols_required: self.min_symbols_required,
            data_frames_ingested: self.data_frames_ingested,
            data_frames_dropped: self.data_frames_dropped,
            data_frames_duplicated: self.data_frames_duplicated,
            data_frames_reordered: self.data_frames_reordered,
            control_acks_sent: self.control_acks_sent,
            recovery_time_ms: (now.since(self.start_at->0).nanos / 1_000_000) as u128,
            decoded_bytes,
        }
    }
}

impl StreamTelemetry {
    /// The clock that the transfer goes by.
    pub closed spec fn its_clock(&self) -> Clock {
        self.clock
    }

    /// Counters of a transfer that has not started, with a clock of its own.
    pub fn new() -> (telemetry: StreamTelemetry)
        ensures
            telemetry@ == TelemetryCounts::zero(),
    {
        StreamTelemetry::with_clock(Clock::start())
    }

    /// Counters of a transfer that has not started and goes by the clock `clock`.
    pub fn with_clock(clock: Clock) -> (telemetry: StreamTelemetry)
        ensures
            telemetry@ == TelemetryCounts::zero(),
            telemetry.its_clock() == clock,
    {
        StreamTelemetry {
            counts: TelemetryCounts {
                start_at: None,
                transfer_length: 0,
                symbol_size: 0,
                min_symbols_required: 0,
                data_frames_ingested: 0,
                data_frames_dropped: 0,
                data_frames_duplicated: 0,
                data_frames_reordered: 0,
                control_acks_sent: 0,
            },
            clock,
        }
    }

    /// The clock that the transfer goes by.
    pub fn clock(&self) -> (clock: Clock)
        ensures
            clock == self.its_clock(),
    {
        self.clock
    }

    /// The present moment by the transfer's clock. Which moment that is depends on when it is asked.
    pub fn now(&self) -> (now: Instant)
        ensures
            self.its_clock().reads(now),
    {
        self.clock.now()
    }

    /// Starts to count a transfer at the moment `now` of its clock.
    pub fn on_stream_start_at(&mut self, config: ObjectTransmissionInformation, now: Instant)
        requires
            config.symbol_size != 0,
        ensures
            final(self)@ == TelemetryCounts::started(config, now),
            final(self)@ == (TelemetryEvent::Started { config, now }).after(old(self)@),
            final(self).its_clock() == old(self).its_clock(),
    {
        let size: u64 = config.symbol_size() as u64;
        let len: u64 = config.transfer_length();
        self.counts =
        TelemetryCounts {
            start_at: Some(now),
            transfer_length: len,
            symbol_size: config.symbol_size(),
            min_symbols_required: ceil_div(len, size),
            data_frames_ingested: 0,
            data_frames_dropped: 0,
            data_frames_duplicated: 0,
            data_frames_reordered: 0,
            control_acks_sent: 0,
        };
    }

    /// Starts to count a transfer.
    pub fn on_stream_start(&mut self, config: ObjectTransmissionInformation)
        requires
            config.symbol_size != 0,
        ensures
            exists|now: Instant|
                old(self).its_clock().reads(now) && final(self)@
                    == #[trigger] TelemetryCounts::started(config, now),
            final(self).its_clock() == old(self).its_clock(),
    {
        let now = self.now();
        self.on_stream_start_at(config, now)
    }

    /// Counts a data frame that was taken.
    pub fn on_data_ingested(&mut self)
        requires
            old(self)@.data_frames_ingested < u64::MAX,
        ensures
            final(self)@ == (TelemetryCounts {
                data_frames_ingested: (old(self)@.data_frames_ingested + 1) as u64,
                ..old(self)@
            }),
            final(self)@ == TelemetryEvent::Ingested.after(old(self)@),
            final(self).its_clock() == old(self).its_clock(),
    {
        self.counts.data_frames_ingested = self.counts.data_frames_ingested + 1;
    }

    /// Counts a data frame that was lost.
    pub fn on_data_drop(&mut self)
        requires
            old(self)@.data_frames_dropped < u64::MAX,
        ensures
            final(self)@ == (TelemetryCounts {
                data_frames_dropped: (old(self)@.data_frames_dropped + 1) as u64,
                ..old(self)@
            }),
            final(self)@ == TelemetryEvent::Dropped.after(old(self)@),
            final(self).its_clock() == old(self).its_clock(),
    {
        self.counts.data_frames_dropped = self.counts.data_frames_dropped + 1;
    }

    /// Counts copies of data frames.
    pub fn on_data_duplicated(&mut self, count: u64)
        requires
            old(self)@.data_frames_duplicated + count <= u64::MAX,
        ensures
            final(self)@ == (TelemetryCounts {
                data_frames_duplicated: (old(self)@.data_frames_duplicated + count) as u64,
                ..old(self)@
            }),
            final(self)@ == (TelemetryEvent::Duplicated { count }).after(old(self)@),
            final(self).its_clock() == old(self).its_clock(),
    {
        self.counts.data_frames_duplicated = self.counts.data_frames_duplicated + count;
    }

    /// Counts a data frame that changed places with another.
    pub fn on_data_reordered(&mut self)
        requires
            old(self)@.data_frames_reordered < u64::MAX,
        ensures
            final(self)@ == (TelemetryCounts {
                data_frames_reordered: (old(self)@.data_frames_reordered + 1) as u64,
                ..old(self)@
            }),
            final(self)@ == TelemetryEvent::Reordered.after(old(self)@),
            final(self).its_clock() == old(self).its_clock(),
    {
        self.counts.data_frames_reordered = self.counts.data_frames_reordered + 1;
    }

    /// Counts an acknowledgement that was sent.
    pub fn on_control_ack_sent(&mut self)
        requires
            old(self)@.control_acks_sent < u64::MAX,
        ensures
            final(self)@ == (TelemetryCounts {
                control_acks_sent: (old(self)@.control_acks_sent + 1) as u64,
                ..old(self)@
            }),
            final(self)@ == TelemetryEvent::AckSent.after(old(self)@),
            final(self).its_clock() == old(self).its_clock(),
    {
        self.counts.control_acks_sent = self.counts.control_acks_sent + 1;
    }

    /// What is told of the transfer when it ends at the moment `now` of its clock, by the wall clock
    /// at `finished_at_unix_ms`. Nothing, if none was started.
    pub fn finalize_at(
        &self,
        peer: String,
        session_id: u64,
        decoded_bytes: usize,
        now: Instant,
        finished_at_unix_ms: u128,
    ) -> (metrics: Option<StreamMetrics>)
        ensures
            metrics is Some <==> self@.start_at is Some,
            metrics matches Some(m) ==> m == (StreamMetrics {
                finished_at_unix_ms,
                peer,
                session_id,
                transfer_length: self@.transfer_length,
                symbol_size: self@.symbol_size,
                min_symbols_required: self@.min_symbols_required,
                data_frames_ingested: self@.data_frames_ingested,
                data_frames_dropped: self@.data_frames_dropped,
                data_frames_duplicated: self@.data_frames_duplicated,
                data_frames_reordered: self@.data_frames_reordered,
                control_acks_sent: self@.control_acks_sent,
                recovery_time_ms: (now.since(self@.start_at->0).nanos / 1_000_000) as u128,
                decoded_bytes,
            }),
    {
        match self.counts.start_at {
            None => None,
            Some(started) => Some(
                StreamMetrics {
                    finished_at_unix_ms,
                    peer,
                    session_id,
                    transfer_length: self.counts.transfer_length,
                    symbol_size: self.counts.symbol_size,
                    min_symbols_required: self.counts.min_symbols_required,
                    data_frames_ingested: self.counts.data_frames_ingested,
                    data_frames_dropped: self.counts.data_frames_dropped,
                    data_frames_duplicated: self.counts.data_frames_duplicated,
                    data_frames_reordered: self.counts.data_frames_reordered,
                    control_acks_sent: self.counts.control_acks_sent,
                    recovery_time_ms: now.saturating_duration_since(started).as_millis(),
                    decoded_bytes,
                },
            ),
        }
    }

    /// What is told of the transfer when it ends now. Nothing, if none was started. How long it
    /// took is read from the transfer's clock, and when it ended from the wall clock.
    pub fn finalize(&self, peer: String, session_id: u64, decoded_bytes: usize) -> (metrics: Option<
        StreamMetrics,
    >)
        ensures
            metrics is Some <==> self@.start_at is Some,
            metrics matches Some(m) ==> exists|now: Instant, reading: Option<(u64, u32)>|
                self.its_clock().reads(now) && (reading matches Some(parts) ==> parts.1 < 1_000_000_000) && m
                    == #[trigger] self@.told(peer, session_id, decoded_bytes, now, reading),
    {
        let now = self.now();
        let finished_at_unix_ms: u128 = time::unix_millis();
        let metrics = self.finalize_at(peer, session_id, decoded_bytes, now, finished_at_unix_ms);
        proof {
            if metrics is Some {
                let reading = choose|reading: Option<(u64, u32)>|
                    (reading matches Some(parts) ==> parts.1 < 1_000_000_000)
                        && finished_at_unix_ms == #[trigger] time::epoch_millis(reading);
                assert(metrics->0 == self@.told(peer, session_id, decoded_bytes, now, reading));
            }
        }
        metrics
    }
}

impl Default for StreamTelemetry {
    fn default() -> (telemetry: StreamTelemetry)
        ensures
            telemetry@ == TelemetryCounts::zero(),
    {
        StreamTelemetry::new()
    }
}

} // verus!
