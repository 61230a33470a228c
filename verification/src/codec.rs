//! The codec: events to bytes, and back.

use vstd::prelude::*;
use bytes::Bytes;
use crate::arrays::EventArrays;
use crate::buffer::{bytes_from, content};
use crate::errors::{at_end, DecodeError, EncodeError};
use crate::events::{events_of, Event, EventKey, EventValue};
use crate::indexing::{arrays_of, has_writable_time, index_events};
use crate::order::{in_order, lemma_same_events};
use crate::rebuilding::{events_in, rebuild_events};
use crate::sections::{arrays_in, payload, read_payload, write_payload};
use crate::zpaq::compress::{compress_m5, compressed, decompress_m5, decompressed};

verus! {

/// The bytes of events, or why they cannot be encoded.
pub open spec fn encoded(events: Seq<Event>) -> Result<Seq<u8>, EncodeError> {
    match arrays_of(in_order(events)) {
        Err(e) => Err(e),
        Ok(a) => Ok(compressed(payload(a))),
    }
}

/// The events that some bytes stand for, or why they cannot be decoded.
pub open spec fn decoded(bytes: Seq<u8>) -> Result<Seq<Event>, DecodeError> {
    match decompressed(bytes) {
        None => Err(DecodeError::UnexpectedEof),
        Some(data) => match arrays_in(data) {
            Err(e) => Err(e),
            Ok(a) => events_in(a),
        },
    }
}

/// A codec for the events of a timeline.
pub struct LifthrasiirCodec;

impl LifthrasiirCodec {
    /// Creates the codec.
    pub fn new() -> (r: Self)
        ensures
            r == LifthrasiirCodec,
    {
        LifthrasiirCodec
    }

    /// Gets the name of the codec.
    pub fn name(&self) -> (r: &str)
        ensures
            r@ == "lifthrasiir"@,
    {
        "lifthrasiir"
    }

    /// Encodes events, in the order of their keys. Times that can be encoded can also be written.
    pub fn encode(&self, events: &[(EventKey, EventValue)]) -> (r: Result<Bytes, EncodeError>)
        ensures
            match r {
                Ok(buffer) => {
                    &&& encoded(events_of(events@)) == Ok::<_, EncodeError>(content(buffer))
                    &&& forall|i: int|
                        0 <= i < events.len() ==> has_writable_time(
                            #[trigger] events_of(events@)[i],
                        )
                },
                Err(e) => encoded(events_of(events@)) == Err::<Seq<u8>, _>(e),
            },
    {
        let arrays: EventArrays = match index_events(events) {
            Ok(arrays) => arrays,
            Err(e) => {
                return Err(e);
            },
        };
        proof {
            let given = events_of(events@);
            assert forall|i: int| 0 <= i < given.len() implies has_writable_time(
                #[trigger] given[i],
            ) by {
                lemma_same_events(given, i);
                let k = choose|k: int|
                    0 <= k < given.len() && #[trigger] in_order(given)[k] == given[i];
                assert(has_writable_time(in_order(given)[k]));
            }
        }
        let data: Vec<u8> = write_payload(&arrays);
        Ok(bytes_from(compress_m5(data.as_slice())))
    }

    /// Decodes events.
    pub fn decode(&self, bytes: &[u8]) -> (r: Result<Vec<(EventKey, EventValue)>, DecodeError>)
        ensures
            match r {
                Ok(events) => decoded(bytes@) == Ok::<_, DecodeError>(events_of(events@)),
                Err(e) => decoded(bytes@) == Err::<Seq<Event>, _>(e),
            },
    {
        let data: Vec<u8> = match decompress_m5(bytes) {
            Ok(data) => data,
            Err(e) => {
                return Err(at_end(e));
            },
        };
        let arrays: EventArrays = match read_payload(data.as_slice()) {
            Ok(arrays) => arrays,
            Err(e) => {
                return Err(e);
            },
        };
        rebuild_events(&arrays)
    }
}

} // verus!
