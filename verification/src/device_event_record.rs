//! Class-specific compact encodings of the fourteen-word device event record.
//!
//! A full record is `[time, phase, origin node, origin sequence, target, kind, payload, packet id,
//! flow, size, packet-kind word, metadata 0, metadata 1, metadata 2]`. Stream classes store only
//! the words that their stream cannot reconstruct from its own identity.

use vstd::prelude::*;

verus! {

pub const EVENT_WORDS: usize = 14;

pub const CHANNEL_EVENT_WORDS: usize = 11;

pub const SERVICE_EVENT_WORDS: usize = 5;

pub const GENERATOR_EVENT_WORDS: usize = 10;

pub const REMOTE_STAGING_EVENT_WORDS: usize = 12;

/// Device codes of the event kinds, as stored in word 5.
pub const PACKET_ARRIVAL_CODE: u64 = 0;

pub const TX_READY_CODE: u64 = 1;

pub const TX_COMPLETE_CODE: u64 = 2;

pub const REMOTE_ARRIVAL_CODE: u64 = 3;

/// The physical stream class a record is stored under.
#[derive(Clone, Copy, Debug, PartialEq, Eq, Structural)]
pub enum StoredEventClass {
    Channel,
    Service,
    Generator,
    Fallback,
}

/// One class-specific stored record and its meaningful word count.
#[derive(Clone, Copy, Debug, PartialEq, Eq)]
pub struct EncodedEventRecord {
    pub words: [u64; 14],
    pub len: usize,
}

pub open spec fn spec_stored_event_words(class: StoredEventClass) -> usize {
    match class {
        StoredEventClass::Channel => CHANNEL_EVENT_WORDS,
        StoredEventClass::Service => SERVICE_EVENT_WORDS,
        StoredEventClass::Generator => GENERATOR_EVENT_WORDS,
        StoredEventClass::Fallback => EVENT_WORDS,
    }
}

/// Stored words per record of each class.
pub fn stored_event_words(class: StoredEventClass) -> (words: usize)
    ensures
        words == spec_stored_event_words(class),
{
    match class {
        StoredEventClass::Channel => CHANNEL_EVENT_WORDS,
        StoredEventClass::Service => SERVICE_EVENT_WORDS,
        StoredEventClass::Generator => GENERATOR_EVENT_WORDS,
        StoredEventClass::Fallback => EVENT_WORDS,
    }
}

pub open spec fn spec_stream_event_class(
    stream: usize,
    service_stream_base: usize,
    generator_stream_base: usize,
) -> StoredEventClass {
    if stream < service_stream_base {
        StoredEventClass::Channel
    } else if stream < generator_stream_base {
        StoredEventClass::Service
    } else {
        StoredEventClass::Generator
    }
}

/// Streams below the service base are channel inboxes, then one service stream per LP, then one
/// generator stream per flow.
pub fn stream_event_class(stream: usize, service_stream_base: usize, generator_stream_base: usize) -> (class:
    StoredEventClass)
    ensures
        class == spec_stream_event_class(stream, service_stream_base, generator_stream_base),
{
    if stream < service_stream_base {
        StoredEventClass::Channel
    } else if stream < generator_stream_base {
        StoredEventClass::Service
    } else {
        StoredEventClass::Generator
    }
}

/// The event kind each class may carry.
pub open spec fn spec_class_admits(record: Seq<u64>, class: StoredEventClass) -> bool {
    match class {
        StoredEventClass::Channel => record[5] == REMOTE_ARRIVAL_CODE,
        StoredEventClass::Service => record[5] == TX_READY_CODE || record[5] == TX_COMPLETE_CODE,
        StoredEventClass::Generator => record[5] == PACKET_ARRIVAL_CODE,
        StoredEventClass::Fallback => true,
    }
}

/// The fourteen stored words of one record under a class; words past the class width are zero.
pub open spec fn spec_encode(r: Seq<u64>, class: StoredEventClass) -> Seq<u64> {
    match class {
        StoredEventClass::Channel => seq![
            r[0], r[1], r[2], r[3], r[6], r[8], r[9], r[10], r[11], r[12], r[13], 0, 0, 0,
        ],
        StoredEventClass::Service => seq![r[0], r[1], r[2], r[3], r[6], 0, 0, 0, 0, 0, 0, 0, 0, 0],
        StoredEventClass::Generator => seq![
            r[0], r[1], r[2], r[3], r[6], r[9], r[10], r[11], r[12], r[13], 0, 0, 0, 0,
        ],
        StoredEventClass::Fallback => r,
    }
}

/// Compacts one full record into its class encoding.
pub fn encode_event_record(record: [u64; 14], class: StoredEventClass) -> (encoded:
    EncodedEventRecord)
    requires
        spec_class_admits(record@, class),
    ensures
        encoded.words@ == spec_encode(record@, class),
        encoded.len == spec_stored_event_words(class),
{
    let r = record;
    let words: [u64; 14] = match class {
        StoredEventClass::Channel => [
            r[0],
            r[1],
            r[2],
            r[3],
            r[6],
            r[8],
            r[9],
            r[10],
            r[11],
            r[12],
            r[13],
            0,
            0,
            0,
        ],
        StoredEventClass::Service => [r[0], r[1], r[2], r[3], r[6], 0, 0, 0, 0, 0, 0, 0, 0, 0],
        StoredEventClass::Generator => [
            r[0],
            r[1],
            r[2],
            r[3],
            r[6],
            r[9],
            r[10],
            r[11],
            r[12],
            r[13],
            0,
            0,
            0,
            0,
        ],
        StoredEventClass::Fallback => r,
    };
    assert(words@ =~= spec_encode(record@, class));
    EncodedEventRecord { words, len: stored_event_words(class) }
}

/// The full record rebuilt from a class encoding and the stream's own identity.
pub open spec fn spec_decode(
    e: Seq<u64>,
    class: StoredEventClass,
    node: u64,
    flow: Option<u64>,
    in_service: Option<Seq<u64>>,
) -> Seq<u64> {
    match class {
        StoredEventClass::Channel => seq![
            e[0], e[1], e[2], e[3], node, REMOTE_ARRIVAL_CODE, e[4], e[4], e[5], e[6], e[7], e[8], e[9], e[10],
        ],
        StoredEventClass::Service => if e[1] == 2 {
            seq![e[0], e[1], e[2], e[3], node, TX_READY_CODE, e[4], 0, 0, 0, 0, 0, 0, 0]
        } else {
            let s = in_service.unwrap();
            seq![
                e[0], e[1], e[2], e[3], node, TX_COMPLETE_CODE, e[4], s[7], s[8], s[9], s[10], s[11], s[12], s[13],
            ]
        },
        StoredEventClass::Generator => seq![
            e[0], e[1], e[2], e[3], node, PACKET_ARRIVAL_CODE, e[4], e[4], flow.unwrap(), e[5], e[6], e[7], e[8], e[9],
        ],
        StoredEventClass::Fallback => e,
    }
}

/// What decoding demands of its inputs: the exact class width, the stream flow for generator
/// records, and the in-service record (whose packet id matches) for transmission completions.
pub open spec fn spec_decode_ready(
    e: Seq<u64>,
    class: StoredEventClass,
    flow: Option<u64>,
    in_service: Option<Seq<u64>>,
) -> bool {
    &&& e.len() == spec_stored_event_words(class)
    &&& class is Generator ==> flow is Some
    &&& (class is Service && e[1] != 2) ==> (in_service is Some && in_service.unwrap().len() == 14
        && in_service.unwrap()[7] == e[4])
}

/// Rebuilds the full fourteen-word record from a class encoding.
pub fn decode_event_record(
    encoded: &[u64],
    class: StoredEventClass,
    node: u64,
    flow: Option<u64>,
    in_service: Option<&[u64; 14]>,
) -> (record: [u64; 14])
    requires
        spec_decode_ready(
            encoded@,
            class,
            flow,
            match in_service {
                None => None,
                Some(s) => Some(s@),
            },
        ),
    ensures
        record@ == spec_decode(
            encoded@,
            class,
            node,
            flow,
            match in_service {
                None => None,
                Some(s) => Some(s@),
            },
        ),
{
    let e = encoded;
    let record: [u64; 14] = match class {
        StoredEventClass::Channel => [
            e[0],
            e[1],
            e[2],
            e[3],
            node,
            REMOTE_ARRIVAL_CODE,
            e[4],
            e[4],
            e[5],
            e[6],
            e[7],
            e[8],
            e[9],
            e[10],
        ],
        StoredEventClass::Service => {
            if e[1] == 2 {
                [e[0], e[1], e[2], e[3], node, TX_READY_CODE, e[4], 0, 0, 0, 0, 0, 0, 0]
            } else {
                let s = match in_service {
                    Some(s) => s,
                    None => {
                        assert(false);
                        return [0u64; 14];
                    },
                };
                [
                    e[0],
                    e[1],
                    e[2],
                    e[3],
                    node,
                    TX_COMPLETE_CODE,
                    e[4],
                    s[7],
                    s[8],
                    s[9],
                    s[10],
                    s[11],
                    s[12],
                    s[13],
                ]
            }
        },
        StoredEventClass::Generator => {
            let f = match flow {
                Some(f) => f,
                None => {
                    assert(false);
                    return [0u64; 14];
                },
            };
            [
                e[0],
                e[1],
                e[2],
                e[3],
                node,
                PACKET_ARRIVAL_CODE,
                e[4],
                e[4],
                f,
                e[5],
                e[6],
                e[7],
                e[8],
                e[9],
            ]
        },
        StoredEventClass::Fallback => [
            e[0],
            e[1],
            e[2],
            e[3],
            e[4],
            e[5],
            e[6],
            e[7],
            e[8],
            e[9],
            e[10],
            e[11],
            e[12],
            e[13],
        ],
    };
    proof {
        let inv = match in_service {
            None => None,
            Some(s) => Some(s@),
        };
        assert(record@ =~= spec_decode(encoded@, class, node, flow, inv));
    }
    record
}

/// The words a class cannot store are exactly those its stream identity reconstructs: the target
/// LP, the kind (a service record's kind is its phase), a copy of the payload id, the generator's
/// flow, and for a transmission completion the in-service packet.
pub open spec fn spec_reconstructible(
    r: Seq<u64>,
    class: StoredEventClass,
    node: u64,
    flow: Option<u64>,
    in_service: Option<Seq<u64>>,
) -> bool {
    &&& r.len() == 14
    &&& spec_class_admits(r, class)
    &&& class !is Fallback ==> r[4] == node
    &&& match class {
        StoredEventClass::Channel => r[7] == r[6],
        StoredEventClass::Service => if r[5] == TX_READY_CODE {
            r[1] == 2 && forall|i: int| 7 <= i < 14 ==> r[i] == 0
        } else {
            r[1] != 2 && r[7] == r[6] && in_service is Some && in_service.unwrap().len() == 14
                && forall|i: int|
                7 <= i < 14 ==> in_service.unwrap()[i] == r[i]
        },
        StoredEventClass::Generator => r[7] == r[6] && flow == Some(r[8]),
        StoredEventClass::Fallback => true,
    }
}

/// Law: decoding an encoded record rebuilds it exactly whenever the stream identity supplies the
/// words the class does not store, and the logical event (its first seven words) always survives
/// given the target LP and the kind-phase convention.
pub proof fn law_decode_inverts_encode(
    r: Seq<u64>,
    class: StoredEventClass,
    node: u64,
    flow: Option<u64>,
    in_service: Option<Seq<u64>>,
)
    requires
        spec_reconstructible(r, class, node, flow, in_service),
    ensures
        spec_decode_ready(
            spec_encode(r, class).subrange(0, spec_stored_event_words(class) as int),
            class,
            flow,
            in_service,
        ),
        spec_decode(
            spec_encode(r, class).subrange(0, spec_stored_event_words(class) as int),
            class,
            node,
            flow,
            in_service,
        ) =~= r,
{
    let e = spec_encode(r, class).subrange(0, spec_stored_event_words(class) as int);
    let d = spec_decode(e, class, node, flow, in_service);
    if class is Service && r[5] == TX_READY_CODE {
        assert forall|i: int| 0 <= i < 14 implies d[i] == r[i] by {
            if 7 <= i {
                assert(r[i] == 0);
            }
        }
    }
    assert(d.len() == r.len());
    assert forall|i: int| 0 <= i < 14 implies d[i] == r[i] by {
        if class is Service && r[5] != TX_READY_CODE && 7 <= i {
            assert(in_service.unwrap()[i] == r[i]);
        }
    }
}

} // verus!
