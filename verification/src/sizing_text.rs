//! Diagnostic messages of device sizing refusals.

use vstd::prelude::*;

use crate::aqm_trace::{push_decimal, push_text, spec_decimal};
use crate::device_sizing::{DeviceSizingError, SizingFault, SizingQuantity};
use crate::event::{push_node, spec_node_text};
use crate::time::TimeError;

verus! {

/// The diagnostic message of a quantity that does not fit `usize`.
pub open spec fn spec_quantity_text(quantity: SizingQuantity) -> Seq<char> {
    match quantity {
        SizingQuantity::TcpFallbackFelSlots => "TCP fallback FEL slots overflow usize"@,
        SizingQuantity::FallbackFelSlots => "fallback FEL slots overflow usize"@,
        SizingQuantity::LegacyFelSlots => "legacy FEL slots overflow usize"@,
        SizingQuantity::QueueSlots => "queue slots overflow usize"@,
        SizingQuantity::RemoteStagingSlots => "remote staging slots overflow usize"@,
        SizingQuantity::ChannelStreamSlots => "channel stream slots overflow usize"@,
        SizingQuantity::ServiceStreamSlots => "service stream slots overflow usize"@,
        SizingQuantity::GeneratorStreamSlots => "generator stream slots overflow usize"@,
        SizingQuantity::StreamRecordSlots => "stream record slots overflow usize"@,
        SizingQuantity::ServiceStreamCount => "service stream count overflows usize"@,
        SizingQuantity::GeneratorStreamCount => "generator stream count overflows usize"@,
        SizingQuantity::LpStreamList => "LP stream-list size overflows usize"@,
        SizingQuantity::ActiveStreamList => "active stream-list size overflows usize"@,
        SizingQuantity::StreamMetadata => "stream metadata overflows usize"@,
        SizingQuantity::LpStreamMetadata => "LP stream metadata overflows usize"@,
        SizingQuantity::OutboundMetadata => "outbound metadata overflows usize"@,
        SizingQuantity::OutboundChannelEntries => "outbound channel entries overflows usize"@,
        SizingQuantity::ChannelBatches => "channel batches overflows usize"@,
        SizingQuantity::StreamState => "stream state size overflows usize"@,
        SizingQuantity::RoutePlane => "route plane overflows usize"@,
        SizingQuantity::NodeStatePlane => "node-state plane overflows usize"@,
        SizingQuantity::GeneratorPlane => "generator plane overflows usize"@,
        SizingQuantity::FlowPlane => "flow plane overflows usize"@,
        SizingQuantity::LinkPlane => "link plane overflows usize"@,
        SizingQuantity::FelMetadataPlane => "FEL metadata plane overflows usize"@,
        SizingQuantity::FelRecordPlane => "FEL record plane overflows usize"@,
        SizingQuantity::QueueMetadataPlane => "queue metadata plane overflows usize"@,
        SizingQuantity::QueueRecordPlane => "queue record plane overflows usize"@,
        SizingQuantity::InServicePlane => "in-service plane overflows usize"@,
        SizingQuantity::OutboxPlane => "outbox plane overflows usize"@,
        SizingQuantity::SummaryPlane => "summary plane overflows usize"@,
        SizingQuantity::LpStatePlane => "LP-state plane overflows usize"@,
        SizingQuantity::RemoteMetadataPlane => "remote metadata plane overflows usize"@,
        SizingQuantity::RemoteStagingPlane => "remote staging plane overflows usize"@,
        SizingQuantity::ObservationMetadataPlane => "observation metadata plane overflows usize"@,
        SizingQuantity::InboundMetadataPlane => "inbound metadata plane overflows usize"@,
        SizingQuantity::StreamRecordPlane => "stream record plane overflows usize"@,
        SizingQuantity::SchedulerMetadata => "device scheduler metadata size overflows usize"@,
        SizingQuantity::SchedulerClassState => "device scheduler class-state size overflows usize"@,
        SizingQuantity::SchedulerClassArena => "device scheduler class arena size overflows usize"@,
        SizingQuantity::SchedulerQueueTag => "device scheduler queue-tag size overflows usize"@,
        SizingQuantity::SchedulerQueueTagArena => "device scheduler queue-tag arena overflows usize"@,
        SizingQuantity::DevicePlaneBytes => "device plane bytes overflows usize"@,
        SizingQuantity::TcpRecordSlots => "TCP auxiliary record slots overflow usize"@,
        SizingQuantity::TcpReceiverRows => "TCP receiver rows overflows usize"@,
        SizingQuantity::TcpRangeMetadata => "TCP range metadata overflows usize"@,
        SizingQuantity::TcpReceiveRanges => "TCP receive ranges overflows usize"@,
        SizingQuantity::TcpLedgerRecords => "TCP ledger records overflows usize"@,
        SizingQuantity::TcpTransitionMetadata => "TCP transition metadata overflows usize"@,
        SizingQuantity::TcpStatePlane => "TCP state plane overflows usize"@,
        SizingQuantity::TcpStatePlaneBytes => "TCP state plane bytes overflows usize"@,
        SizingQuantity::TotalDeviceBytes => "total device bytes overflow usize"@,
        SizingQuantity::EventArenaBytes => "event arena byte size overflows usize"@,
        SizingQuantity::StreamStateBytes => "stream state bytes overflows usize"@,
        SizingQuantity::StreamRecordWords => "stream record words overflows usize"@,
        SizingQuantity::StreamRecordBytes => "stream record bytes overflows usize"@,
        SizingQuantity::StreamArenaBytes => "stream arena bytes overflow usize"@,
    }
}

impl SizingQuantity {
    /// The diagnostic message of the quantity's overflow.
    pub fn message(self) -> (text: &'static str)
        ensures
            text@ == spec_quantity_text(self),
    {
        match self {
            SizingQuantity::TcpFallbackFelSlots => "TCP fallback FEL slots overflow usize",
            SizingQuantity::FallbackFelSlots => "fallback FEL slots overflow usize",
            SizingQuantity::LegacyFelSlots => "legacy FEL slots overflow usize",
            SizingQuantity::QueueSlots => "queue slots overflow usize",
            SizingQuantity::RemoteStagingSlots => "remote staging slots overflow usize",
            SizingQuantity::ChannelStreamSlots => "channel stream slots overflow usize",
            SizingQuantity::ServiceStreamSlots => "service stream slots overflow usize",
            SizingQuantity::GeneratorStreamSlots => "generator stream slots overflow usize",
            SizingQuantity::StreamRecordSlots => "stream record slots overflow usize",
            SizingQuantity::ServiceStreamCount => "service stream count overflows usize",
            SizingQuantity::GeneratorStreamCount => "generator stream count overflows usize",
            SizingQuantity::LpStreamList => "LP stream-list size overflows usize",
            SizingQuantity::ActiveStreamList => "active stream-list size overflows usize",
            SizingQuantity::StreamMetadata => "stream metadata overflows usize",
            SizingQuantity::LpStreamMetadata => "LP stream metadata overflows usize",
            SizingQuantity::OutboundMetadata => "outbound metadata overflows usize",
            SizingQuantity::OutboundChannelEntries => "outbound channel entries overflows usize",
            SizingQuantity::ChannelBatches => "channel batches overflows usize",
            SizingQuantity::StreamState => "stream state size overflows usize",
            SizingQuantity::RoutePlane => "route plane overflows usize",
            SizingQuantity::NodeStatePlane => "node-state plane overflows usize",
            SizingQuantity::GeneratorPlane => "generator plane overflows usize",
            SizingQuantity::FlowPlane => "flow plane overflows usize",
            SizingQuantity::LinkPlane => "link plane overflows usize",
            SizingQuantity::FelMetadataPlane => "FEL metadata plane overflows usize",
            SizingQuantity::FelRecordPlane => "FEL record plane overflows usize",
            SizingQuantity::QueueMetadataPlane => "queue metadata plane overflows usize",
            SizingQuantity::QueueRecordPlane => "queue record plane overflows usize",
            SizingQuantity::InServicePlane => "in-service plane overflows usize",
            SizingQuantity::OutboxPlane => "outbox plane overflows usize",
            SizingQuantity::SummaryPlane => "summary plane overflows usize",
            SizingQuantity::LpStatePlane => "LP-state plane overflows usize",
            SizingQuantity::RemoteMetadataPlane => "remote metadata plane overflows usize",
            SizingQuantity::RemoteStagingPlane => "remote staging plane overflows usize",
            SizingQuantity::ObservationMetadataPlane => "observation metadata plane overflows usize",
            SizingQuantity::InboundMetadataPlane => "inbound metadata plane overflows usize",
            SizingQuantity::StreamRecordPlane => "stream record plane overflows usize",
            SizingQuantity::SchedulerMetadata => "device scheduler metadata size overflows usize",
            SizingQuantity::SchedulerClassState => "device scheduler class-state size overflows usize",
            SizingQuantity::SchedulerClassArena => "device scheduler class arena size overflows usize",
            SizingQuantity::SchedulerQueueTag => "device scheduler queue-tag size overflows usize",
            SizingQuantity::SchedulerQueueTagArena => "device scheduler queue-tag arena overflows usize",
            SizingQuantity::DevicePlaneBytes => "device plane bytes overflows usize",
            SizingQuantity::TcpRecordSlots => "TCP auxiliary record slots overflow usize",
            SizingQuantity::TcpReceiverRows => "TCP receiver rows overflows usize",
            SizingQuantity::TcpRangeMetadata => "TCP range metadata overflows usize",
            SizingQuantity::TcpReceiveRanges => "TCP receive ranges overflows usize",
            SizingQuantity::TcpLedgerRecords => "TCP ledger records overflows usize",
            SizingQuantity::TcpTransitionMetadata => "TCP transition metadata overflows usize",
            SizingQuantity::TcpStatePlane => "TCP state plane overflows usize",
            SizingQuantity::TcpStatePlaneBytes => "TCP state plane bytes overflows usize",
            SizingQuantity::TotalDeviceBytes => "total device bytes overflow usize",
            SizingQuantity::EventArenaBytes => "event arena byte size overflows usize",
            SizingQuantity::StreamStateBytes => "stream state bytes overflows usize",
            SizingQuantity::StreamRecordWords => "stream record words overflows usize",
            SizingQuantity::StreamRecordBytes => "stream record bytes overflows usize",
            SizingQuantity::StreamArenaBytes => "stream arena bytes overflow usize",
        }
    }
}

/// How a time error reads in a diagnostic.
pub open spec fn spec_time_error_text(error: TimeError) -> Seq<char> {
    match error {
        TimeError::ZeroRate => "ZeroRate"@,
        TimeError::Overflow => "Overflow"@,
    }
}

/// The diagnostic message of a sizing refusal.
pub open spec fn spec_sizing_error_text(error: DeviceSizingError) -> Seq<char> {
    match error.0 {
        SizingFault::DurationEndpointOverflow => "generator duration endpoint overflows"@,
        SizingFault::Overflow(quantity) => spec_quantity_text(quantity),
        SizingFault::SourceSerialization(time) => "source serialization failed: "@
            + spec_time_error_text(time),
        SizingFault::MissingStreamClassification { link, target } => "no stream classification for link LinkId("@
            + spec_decimal(link.0 as nat) + ") to node "@ + spec_node_text(target),
        SizingFault::DuplicateChannelPair => "stream classification requires one channel per source-target LP pair"@,
    }
}

impl DeviceSizingError {
    /// The diagnostic message of the refusal.
    pub fn message(&self) -> (text: String)
        ensures
            text@ == spec_sizing_error_text(*self),
    {
        let mut text = String::new();
        match self.0 {
            SizingFault::DurationEndpointOverflow => {
                push_text(&mut text, "generator duration endpoint overflows");
            },
            SizingFault::Overflow(quantity) => {
                push_text(&mut text, quantity.message());
            },
            SizingFault::SourceSerialization(time) => {
                push_text(&mut text, "source serialization failed: ");
                match time {
                    TimeError::ZeroRate => push_text(&mut text, "ZeroRate"),
                    TimeError::Overflow => push_text(&mut text, "Overflow"),
                }
            },
            SizingFault::MissingStreamClassification { link, target } => {
                push_text(&mut text, "no stream classification for link LinkId(");
                push_decimal(&mut text, link.0);
                push_text(&mut text, ") to node ");
                push_node(&mut text, target);
            },
            SizingFault::DuplicateChannelPair => {
                push_text(
                    &mut text,
                    "stream classification requires one channel per source-target LP pair",
                );
            },
        }
        assert(text@ =~= spec_sizing_error_text(*self));
        text
    }
}

} // verus!
