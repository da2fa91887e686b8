//! Records and events: one record per discovered or search-matched media
//! file, and the events the pipeline emits toward the presentation layer.

use vstd::prelude::*;
use crate::classify::MediaKind;

verus! {

/// One emitted unit: a discovered or search-matched media file together
/// with its thumbnail location. Created once, never mutated.
pub struct Record {
    pub id: String,
    pub file_path: String,
    pub thumbnail_path: String,
    pub kind: MediaKind,
    pub is_search_result: bool,
}

/// What a record says, with its identifier abstracted away: identifiers are
/// drawn at random and carry no meaning beyond uniqueness.
pub struct RecordData {
    pub file_path: Seq<char>,
    pub thumbnail_path: Seq<char>,
    pub kind: MediaKind,
    pub is_search_result: bool,
}

pub open spec fn record_data(r: Record) -> RecordData {
    RecordData {
        file_path: r.file_path@,
        thumbnail_path: r.thumbnail_path@,
        kind: r.kind,
        is_search_result: r.is_search_result,
    }
}

pub open spec fn records_data(rs: Seq<Record>) -> Seq<RecordData> {
    rs.map_values(|r: Record| record_data(r))
}

/// Relies on uuid::Uuid::new_v4 and its hyphenated text form: a fresh
/// random identifier, printed as 36 characters. Nothing more is assumed of
/// the value.
#[verifier::external_body]
pub(crate) fn fresh_id() -> (r: String)
    ensures
        r@.len() == 36,
{
    uuid::Uuid::new_v4().to_string()
}

/// Build a record for the given file, with a fresh opaque identifier.
pub fn make_record(file_path: &str, thumbnail_path: &str, kind: MediaKind, is_search_result: bool)
    -> (r: Record)
    ensures
        record_data(r) == (RecordData {
            file_path: file_path@,
            thumbnail_path: thumbnail_path@,
            kind: kind,
            is_search_result: is_search_result,
        }),
        r.id@.len() == 36,
{
    let id = fresh_id();
    let fp = crate::text::from_chars(&crate::text::to_chars(file_path));
    let tp = crate::text::from_chars(&crate::text::to_chars(thumbnail_path));
    Record { id, file_path: fp, thumbnail_path: tp, kind, is_search_result }
}

/// The channels of the event stream toward the presentation layer.
#[derive(Clone, Copy, PartialEq, Eq, Structural, Debug)]
pub enum Channel {
    StatusUpdate,
    FilePath,
    SearchedResult,
    RemoveAllData,
    IndexStatus,
}

/// One emitted event: either free text or a batch of records on a channel.
pub enum Event {
    Text { channel: Channel, message: String },
    Batch { channel: Channel, records: Vec<Record> },
}

/// An event with record identifiers abstracted away.
pub enum EventData {
    Text { channel: Channel, message: Seq<char> },
    Batch { channel: Channel, records: Seq<RecordData> },
}

pub open spec fn event_data(e: Event) -> EventData {
    match e {
        Event::Text { channel, message } => EventData::Text { channel, message: message@ },
        Event::Batch { channel, records } => EventData::Batch {
            channel,
            records: records_data(records@),
        },
    }
}

pub open spec fn events_data(es: Seq<Event>) -> Seq<EventData> {
    es.map_values(|e: Event| event_data(e))
}

/// The shape every fresh identifier has: 36 characters, as the hyphenated
/// form prints. Identifiers are random, so nothing more can be said of
/// them.
pub open spec fn record_id_shaped(r: Record) -> bool {
    r.id@.len() == 36
}

/// A batch event carries only records with well-shaped identifiers.
pub open spec fn event_ids_shaped(e: Event) -> bool {
    match e {
        Event::Batch { records, .. } => forall|j: int|
            0 <= j < records@.len() ==> record_id_shaped(#[trigger] records@[j]),
        Event::Text { .. } => true,
    }
}

pub open spec fn events_ids_shaped(es: Seq<Event>) -> bool {
    forall|i: int| 0 <= i < es.len() ==> event_ids_shaped(#[trigger] es[i])
}

} // verus!
