//! The per-version object event record: a flat, self-describing row with
//! identity, ordering, state and enrichment fields, its mathematical model,
//! and the transposed parallel-array form used for bulk binding.

use vstd::prelude::*;

use crate::json::{opt_jv_model, duplicate_opt_json, JsonModel, JsonValue};
use crate::text::{opt_seq_lt, opt_view};

verus! {

/// The lifecycle transition an event records.
#[derive(Clone, Copy, Debug, PartialEq, Eq, Structural)]
pub enum EventType {
    Created,
    Deleted,
    /// Any other transition; dropped by the normalizer.
    Other,
}

/// The provenance of a record.
#[derive(Clone, Copy, Debug, PartialEq, Eq, Structural)]
pub enum Reason {
    Unknown,
    /// A live notification delivered through the event bus.
    EventBridge,
    /// Emitted by a bucket crawl.
    Crawl,
    /// Emitted by a bucket crawl, for an entry carrying a restore expiry.
    CrawlRestored,
    /// A copy operation observed live.
    CreatedCopy,
}

/// The storage class reported by head or list metadata.
#[derive(Clone, Copy, Debug, PartialEq, Eq, Structural)]
pub enum StorageClass {
    DeepArchive,
    Glacier,
    GlacierIr,
    IntelligentTiering,
    OnezoneIa,
    Outposts,
    ReducedRedundancy,
    Standard,
    StandardIa,
    ExpressOnezone,
}

/// The archive restoration status reported by head metadata.
#[derive(Clone, Copy, Debug, PartialEq, Eq, Structural)]
pub enum ArchiveStatus {
    ArchiveAccess,
    DeepArchiveAccess,
}

/// A flat per-version object event.
pub struct FlatS3EventMessage {
    pub s3_object_id: u128,
    pub event_time: Option<String>,
    pub bucket: String,
    pub key: String,
    pub size: Option<i64>,
    pub e_tag: Option<String>,
    pub sha256: Option<String>,
    pub sequencer: Option<String>,
    pub version_id: String,
    pub storage_class: Option<StorageClass>,
    pub last_modified_date: Option<String>,
    pub event_type: EventType,
    pub is_delete_marker: bool,
    pub is_current_state: bool,
    pub reason: Reason,
    pub archive_status: Option<ArchiveStatus>,
    pub ingest_id: Option<u128>,
    pub attributes: Option<JsonValue>,
    pub number_duplicate_events: u64,
    pub number_reordered: u64,
}

/// The mathematical model of an event record.
pub struct EventModel {
    pub s3_object_id: u128,
    pub event_time: Option<Seq<char>>,
    pub bucket: Seq<char>,
    pub key: Seq<char>,
    pub size: Option<i64>,
    pub e_tag: Option<Seq<char>>,
    pub sha256: Option<Seq<char>>,
    pub sequencer: Option<Seq<char>>,
    pub version_id: Seq<char>,
    pub storage_class: Option<StorageClass>,
    pub last_modified_date: Option<Seq<char>>,
    pub event_type: EventType,
    pub is_delete_marker: bool,
    pub is_current_state: bool,
    pub reason: Reason,
    pub archive_status: Option<ArchiveStatus>,
    pub ingest_id: Option<u128>,
    pub attributes: Option<JsonModel>,
    pub number_duplicate_events: u64,
    pub number_reordered: u64,
}

impl View for FlatS3EventMessage {
    type V = EventModel;

    open spec fn view(&self) -> EventModel {
        EventModel {
            s3_object_id: self.s3_object_id,
            event_time: opt_view(self.event_time),
            bucket: self.bucket@,
            key: self.key@,
            size: self.size,
            e_tag: opt_view(self.e_tag),
            sha256: opt_view(self.sha256),
            sequencer: opt_view(self.sequencer),
            version_id: self.version_id@,
            storage_class: self.storage_class,
            last_modified_date: opt_view(self.last_modified_date),
            event_type: self.event_type,
            is_delete_marker: self.is_delete_marker,
            is_current_state: self.is_current_state,
            reason: self.reason,
            archive_status: self.archive_status,
            ingest_id: self.ingest_id,
            attributes: opt_jv_model(self.attributes),
            number_duplicate_events: self.number_duplicate_events,
            number_reordered: self.number_reordered,
        }
    }
}

/// The rank of an event type in the per-version event order: a creation
/// sorts before a deletion with the same sequencer.
pub open spec fn etype_rank(t: EventType) -> int {
    match t {
        EventType::Created => 0,
        EventType::Deleted => 1,
        EventType::Other => 2,
    }
}

/// Whether a record is crawl-originated.
pub open spec fn is_crawl_reason(r: Reason) -> bool {
    r == Reason::Crawl || r == Reason::CrawlRestored
}

/// The per-version event order: ascending by `(sequencer, event_type)`,
/// with an absent sequencer sorting before any present one.
pub open spec fn ev_ord_lt(a: EventModel, b: EventModel) -> bool {
    opt_seq_lt(a.sequencer, b.sequencer) || (a.sequencer == b.sequencer && etype_rank(a.event_type)
        < etype_rank(b.event_type))
}

/// The per-version event order is asymmetric.
pub proof fn lemma_ev_ord_asym(a: EventModel, b: EventModel)
    ensures
        ev_ord_lt(a, b) ==> !ev_ord_lt(b, a),
{
    crate::text::lemma_opt_seq_lt_asym(a.sequencer, b.sequencer);
}

/// The per-version event order is transitive.
pub proof fn lemma_ev_ord_trans(a: EventModel, b: EventModel, c: EventModel)
    ensures
        ev_ord_lt(a, b) && ev_ord_lt(b, c) ==> ev_ord_lt(a, c),
{
    crate::text::lemma_opt_seq_lt_trans(a.sequencer, b.sequencer, c.sequencer);
    crate::text::lemma_opt_seq_lt_asym(a.sequencer, b.sequencer);
    crate::text::lemma_opt_seq_lt_asym(b.sequencer, c.sequencer);
}

/// Two records are ordered one way unless they tie on sequencer and type.
pub proof fn lemma_ev_ord_connected(a: EventModel, b: EventModel)
    ensures
        ev_ord_lt(a, b) || ev_ord_lt(b, a) || (a.sequencer == b.sequencer && etype_rank(
            a.event_type,
        ) == etype_rank(b.event_type)),
{
    crate::text::lemma_opt_seq_lt_connected(a.sequencer, b.sequencer);
}

/// Whether two records agree on the identity-and-ordering key
/// `(bucket, key, version_id, sequencer, event_type)`, the conflict target
/// of the upsert.
pub open spec fn same_key5(a: EventModel, b: EventModel) -> bool {
    a.bucket == b.bucket && a.key == b.key && a.version_id == b.version_id && a.sequencer
        == b.sequencer && a.event_type == b.event_type
}

/// Whether two records describe the same object version.
pub open spec fn same_version(a: EventModel, b: EventModel) -> bool {
    a.bucket == b.bucket && a.key == b.key && a.version_id == b.version_id
}

/// Whether two records describe the same `(bucket, key)` identity.
pub open spec fn same_identity(a: EventModel, b: EventModel) -> bool {
    a.bucket == b.bucket && a.key == b.key
}

/// The model of an empty record carrying the given id.
pub open spec fn default_model(id: u128) -> EventModel {
    EventModel {
        s3_object_id: id,
        event_time: None,
        bucket: Seq::empty(),
        key: Seq::empty(),
        size: None,
        e_tag: None,
        sha256: None,
        sequencer: None,
        version_id: Seq::empty(),
        storage_class: None,
        last_modified_date: None,
        event_type: EventType::Created,
        is_delete_marker: false,
        is_current_state: false,
        reason: Reason::Unknown,
        archive_status: None,
        ingest_id: None,
        attributes: None,
        number_duplicate_events: 0,
        number_reordered: 0,
    }
}

impl FlatS3EventMessage {
    /// Compare this record against another in the per-version event order.
    pub fn ord_lt(&self, other: &FlatS3EventMessage) -> (r: bool)
        ensures
            r == ev_ord_lt(self@, other@),
    {
        if crate::text::opt_str_lt(&self.sequencer, &other.sequencer) {
            true
        } else if crate::text::opt_str_eq(&self.sequencer, &other.sequencer) {
            let a = match self.event_type {
                EventType::Created => 0u8,
                EventType::Deleted => 1u8,
                EventType::Other => 2u8,
            };
            let b = match other.event_type {
                EventType::Created => 0u8,
                EventType::Deleted => 1u8,
                EventType::Other => 2u8,
            };
            a < b
        } else {
            false
        }
    }

    /// Whether this record matches another on the upsert conflict key.
    pub fn matches_key5(&self, other: &FlatS3EventMessage) -> (r: bool)
        ensures
            r == same_key5(self@, other@),
    {
        crate::text::str_eq(self.bucket.as_str(), other.bucket.as_str())
            && crate::text::str_eq(self.key.as_str(), other.key.as_str())
            && crate::text::str_eq(self.version_id.as_str(), other.version_id.as_str())
            && crate::text::opt_str_eq(&self.sequencer, &other.sequencer)
            && self.event_type == other.event_type
    }

    /// Whether this record describes the same object version as another.
    pub fn matches_version(&self, other: &FlatS3EventMessage) -> (r: bool)
        ensures
            r == same_version(self@, other@),
    {
        crate::text::str_eq(self.bucket.as_str(), other.bucket.as_str())
            && crate::text::str_eq(self.key.as_str(), other.key.as_str())
            && crate::text::str_eq(self.version_id.as_str(), other.version_id.as_str())
    }

    /// Whether this record describes the given `(bucket, key)` identity.
    pub fn matches_identity(&self, bucket: &str, key: &str) -> (r: bool)
        ensures
            r == (self@.bucket == bucket@ && self@.key == key@),
    {
        crate::text::str_eq(self.bucket.as_str(), bucket) && crate::text::str_eq(
            self.key.as_str(),
            key,
        )
    }

    /// A structural copy of the record.
    pub fn duplicate(&self) -> (r: FlatS3EventMessage)
        ensures
            r@ == self@,
    {
        FlatS3EventMessage {
            s3_object_id: self.s3_object_id,
            event_time: crate::text::duplicate_opt_string(&self.event_time),
            bucket: self.bucket.clone(),
            key: self.key.clone(),
            size: self.size,
            e_tag: crate::text::duplicate_opt_string(&self.e_tag),
            sha256: crate::text::duplicate_opt_string(&self.sha256),
            sequencer: crate::text::duplicate_opt_string(&self.sequencer),
            version_id: self.version_id.clone(),
            storage_class: self.storage_class,
            last_modified_date: crate::text::duplicate_opt_string(&self.last_modified_date),
            event_type: self.event_type,
            is_delete_marker: self.is_delete_marker,
            is_current_state: self.is_current_state,
            reason: self.reason,
            archive_status: self.archive_status,
            ingest_id: self.ingest_id,
            attributes: duplicate_opt_json(&self.attributes),
            number_duplicate_events: self.number_duplicate_events,
            number_reordered: self.number_reordered,
        }
    }

    /// An empty record carrying the given id.
    pub fn new(s3_object_id: u128) -> (r: FlatS3EventMessage)
        ensures
            r@ == default_model(s3_object_id),
    {
        FlatS3EventMessage {
            s3_object_id,
            event_time: None,
            bucket: String::new(),
            key: String::new(),
            size: None,
            e_tag: None,
            sha256: None,
            sequencer: None,
            version_id: String::new(),
            storage_class: None,
            last_modified_date: None,
            event_type: EventType::Created,
            is_delete_marker: false,
            is_current_state: false,
            reason: Reason::Unknown,
            archive_status: None,
            ingest_id: None,
            attributes: None,
            number_duplicate_events: 0,
            number_reordered: 0,
        }
    }

    /// An empty record carrying a freshly generated id.
    pub fn new_with_generated_id() -> (r: FlatS3EventMessage)
        ensures
            r@ == default_model(r@.s3_object_id),
    {
        FlatS3EventMessage::new(crate::ids::generate_uuid())
    }

    /// The record with a freshly generated id and all other fields kept.
    pub fn regenerate_ids(self) -> (r: FlatS3EventMessage)
        ensures
            r@ == (EventModel { s3_object_id: r@.s3_object_id, ..self@ }),
    {
        let mut r = self;
        r.s3_object_id = crate::ids::generate_uuid();
        r
    }

    /// The record with its bucket replaced.
    pub fn with_bucket(self, bucket: String) -> (r: FlatS3EventMessage)
        ensures
            r@ == (EventModel { bucket: bucket@, ..self@ }),
    {
        let mut r = self;
        r.bucket = bucket;
        r
    }

    /// The record with its key replaced.
    pub fn with_key(self, key: String) -> (r: FlatS3EventMessage)
        ensures
            r@ == (EventModel { key: key@, ..self@ }),
    {
        let mut r = self;
        r.key = key;
        r
    }

    /// The record with its version id replaced.
    pub fn with_version_id(self, version_id: String) -> (r: FlatS3EventMessage)
        ensures
            r@ == (EventModel { version_id: version_id@, ..self@ }),
    {
        let mut r = self;
        r.version_id = version_id;
        r
    }

    /// The record with its sequencer replaced.
    pub fn with_sequencer(self, sequencer: Option<String>) -> (r: FlatS3EventMessage)
        ensures
            r@ == (EventModel { sequencer: opt_view(sequencer), ..self@ }),
    {
        let mut r = self;
        r.sequencer = sequencer;
        r
    }

    /// The record with its event type replaced.
    pub fn with_event_type(self, event_type: EventType) -> (r: FlatS3EventMessage)
        ensures
            r@ == (EventModel { event_type, ..self@ }),
    {
        let mut r = self;
        r.event_type = event_type;
        r
    }

    /// The record with its event time replaced.
    pub fn with_event_time(self, event_time: Option<String>) -> (r: FlatS3EventMessage)
        ensures
            r@ == (EventModel { event_time: opt_view(event_time), ..self@ }),
    {
        let mut r = self;
        r.event_time = event_time;
        r
    }

    /// The record with its size replaced.
    pub fn with_size(self, size: Option<i64>) -> (r: FlatS3EventMessage)
        ensures
            r@ == (EventModel { size, ..self@ }),
    {
        let mut r = self;
        r.size = size;
        r
    }

    /// The record with its ETag replaced.
    pub fn with_e_tag(self, e_tag: Option<String>) -> (r: FlatS3EventMessage)
        ensures
            r@ == (EventModel { e_tag: opt_view(e_tag), ..self@ }),
    {
        let mut r = self;
        r.e_tag = e_tag;
        r
    }

    /// The record with its checksum replaced.
    pub fn with_sha256(self, sha256: Option<String>) -> (r: FlatS3EventMessage)
        ensures
            r@ == (EventModel { sha256: opt_view(sha256), ..self@ }),
    {
        let mut r = self;
        r.sha256 = sha256;
        r
    }

    /// The record with its storage class replaced.
    pub fn with_storage_class(self, storage_class: Option<StorageClass>) -> (r: FlatS3EventMessage)
        ensures
            r@ == (EventModel { storage_class, ..self@ }),
    {
        let mut r = self;
        r.storage_class = storage_class;
        r
    }

    /// The record with its last-modified date replaced.
    pub fn with_last_modified_date(self, last_modified_date: Option<String>) -> (r:
        FlatS3EventMessage)
        ensures
            r@ == (EventModel { last_modified_date: opt_view(last_modified_date), ..self@ }),
    {
        let mut r = self;
        r.last_modified_date = last_modified_date;
        r
    }

    /// The record with its delete-marker flag replaced.
    pub fn with_is_delete_marker(self, is_delete_marker: bool) -> (r: FlatS3EventMessage)
        ensures
            r@ == (EventModel { is_delete_marker, ..self@ }),
    {
        let mut r = self;
        r.is_delete_marker = is_delete_marker;
        r
    }

    /// The record with its current-state flag replaced.
    pub fn with_is_current_state(self, is_current_state: bool) -> (r: FlatS3EventMessage)
        ensures
            r@ == (EventModel { is_current_state, ..self@ }),
    {
        let mut r = self;
        r.is_current_state = is_current_state;
        r
    }

    /// The record with its provenance replaced.
    pub fn with_reason(self, reason: Reason) -> (r: FlatS3EventMessage)
        ensures
            r@ == (EventModel { reason, ..self@ }),
    {
        let mut r = self;
        r.reason = reason;
        r
    }

    /// The record with its archive status replaced.
    pub fn with_archive_status(self, archive_status: Option<ArchiveStatus>) -> (r:
        FlatS3EventMessage)
        ensures
            r@ == (EventModel { archive_status, ..self@ }),
    {
        let mut r = self;
        r.archive_status = archive_status;
        r
    }

    /// The record with its ingest id replaced.
    pub fn with_ingest_id(self, ingest_id: Option<u128>) -> (r: FlatS3EventMessage)
        ensures
            r@ == (EventModel { ingest_id, ..self@ }),
    {
        let mut r = self;
        r.ingest_id = ingest_id;
        r
    }

    /// The record with its attributes replaced.
    pub fn with_attributes(self, attributes: Option<JsonValue>) -> (r: FlatS3EventMessage)
        ensures
            r@ == (EventModel { attributes: opt_jv_model(attributes), ..self@ }),
    {
        let mut r = self;
        r.attributes = attributes;
        r
    }
}

/// The models of a sequence of records.
pub open spec fn events_model(s: Seq<FlatS3EventMessage>) -> Seq<EventModel> {
    Seq::new(s.len(), |i: int| s[i]@)
}

/// An ordered collection of flat records.
pub struct FlatS3EventMessages(pub Vec<FlatS3EventMessage>);

impl View for FlatS3EventMessages {
    type V = Seq<EventModel>;

    open spec fn view(&self) -> Seq<EventModel> {
        events_model(self.0@)
    }
}

impl FlatS3EventMessages {
    /// Wrap a vector of records.
    pub fn new(events: Vec<FlatS3EventMessage>) -> (r: FlatS3EventMessages)
        ensures
            r@ == events_model(events@),
    {
        FlatS3EventMessages(events)
    }

    /// The records themselves.
    pub fn into_inner(self) -> (r: Vec<FlatS3EventMessage>)
        ensures
            events_model(r@) == self@,
    {
        self.0
    }
}

/// The batch in transposed, parallel-array form, one array per column, for
/// bulk binding to the relational store.
pub struct TransposedS3EventMessages {
    pub s3_object_ids: Vec<u128>,
    pub event_times: Vec<Option<String>>,
    pub buckets: Vec<String>,
    pub keys: Vec<String>,
    pub sizes: Vec<Option<i64>>,
    pub e_tags: Vec<Option<String>>,
    pub sha256s: Vec<Option<String>>,
    pub sequencers: Vec<Option<String>>,
    pub version_ids: Vec<String>,
    pub storage_classes: Vec<Option<StorageClass>>,
    pub last_modified_dates: Vec<Option<String>>,
    pub event_types: Vec<EventType>,
    pub is_delete_markers: Vec<bool>,
    pub is_current_states: Vec<bool>,
    pub reasons: Vec<Reason>,
    pub archive_statuses: Vec<Option<ArchiveStatus>>,
    pub ingest_ids: Vec<Option<u128>>,
    pub attributes: Vec<Option<JsonValue>>,
    pub number_duplicate_events: Vec<u64>,
    pub number_reordered: Vec<u64>,
}

impl TransposedS3EventMessages {
    /// All columns hold one entry per record.
    pub open spec fn wf(&self) -> bool {
        &&& self.event_times@.len() == self.s3_object_ids@.len()
        &&& self.buckets@.len() == self.s3_object_ids@.len()
        &&& self.keys@.len() == self.s3_object_ids@.len()
        &&& self.sizes@.len() == self.s3_object_ids@.len()
        &&& self.e_tags@.len() == self.s3_object_ids@.len()
        &&& self.sha256s@.len() == self.s3_object_ids@.len()
        &&& self.sequencers@.len() == self.s3_object_ids@.len()
        &&& self.version_ids@.len() == self.s3_object_ids@.len()
        &&& self.storage_classes@.len() == self.s3_object_ids@.len()
        &&& self.last_modified_dates@.len() == self.s3_object_ids@.len()
        &&& self.event_types@.len() == self.s3_object_ids@.len()
        &&& self.is_delete_markers@.len() == self.s3_object_ids@.len()
        &&& self.is_current_states@.len() == self.s3_object_ids@.len()
        &&& self.reasons@.len() == self.s3_object_ids@.len()
        &&& self.archive_statuses@.len() == self.s3_object_ids@.len()
        &&& self.ingest_ids@.len() == self.s3_object_ids@.len()
        &&& self.attributes@.len() == self.s3_object_ids@.len()
        &&& self.number_duplicate_events@.len() == self.s3_object_ids@.len()
        &&& self.number_reordered@.len() == self.s3_object_ids@.len()
    }

    /// The record the columns hold at one position.
    pub open spec fn row_model(&self, i: int) -> EventModel {
        EventModel {
            s3_object_id: self.s3_object_ids@[i],
            event_time: opt_view(self.event_times@[i]),
            bucket: self.buckets@[i]@,
            key: self.keys@[i]@,
            size: self.sizes@[i],
            e_tag: opt_view(self.e_tags@[i]),
            sha256: opt_view(self.sha256s@[i]),
            sequencer: opt_view(self.sequencers@[i]),
            version_id: self.version_ids@[i]@,
            storage_class: self.storage_classes@[i],
            last_modified_date: opt_view(self.last_modified_dates@[i]),
            event_type: self.event_types@[i],
            is_delete_marker: self.is_delete_markers@[i],
            is_current_state: self.is_current_states@[i],
            reason: self.reasons@[i],
            archive_status: self.archive_statuses@[i],
            ingest_id: self.ingest_ids@[i],
            attributes: opt_jv_model(self.attributes@[i]),
            number_duplicate_events: self.number_duplicate_events@[i],
            number_reordered: self.number_reordered@[i],
        }
    }
}

impl View for TransposedS3EventMessages {
    type V = Seq<EventModel>;

    open spec fn view(&self) -> Seq<EventModel> {
        Seq::new(self.s3_object_ids@.len(), |i: int| self.row_model(i))
    }
}

impl TransposedS3EventMessages {
    /// Transpose a batch of flat records into parallel-array form.
    #[verifier::loop_isolation(false)]
    pub fn from_flat(events: &FlatS3EventMessages) -> (r: TransposedS3EventMessages)
        ensures
            r.wf(),
            r@ == events@,
    {
        let ghost t = events@;
        let mut r = TransposedS3EventMessages {
            s3_object_ids: Vec::new(),
            event_times: Vec::new(),
            buckets: Vec::new(),
            keys: Vec::new(),
            sizes: Vec::new(),
            e_tags: Vec::new(),
            sha256s: Vec::new(),
            sequencers: Vec::new(),
            version_ids: Vec::new(),
            storage_classes: Vec::new(),
            last_modified_dates: Vec::new(),
            event_types: Vec::new(),
            is_delete_markers: Vec::new(),
            is_current_states: Vec::new(),
            reasons: Vec::new(),
            archive_statuses: Vec::new(),
            ingest_ids: Vec::new(),
            attributes: Vec::new(),
            number_duplicate_events: Vec::new(),
            number_reordered: Vec::new(),
        };
        let mut i: usize = 0;
        while i < events.0.len()
            invariant
                i <= t.len(),
                r.wf(),
                r.s3_object_ids@.len() == i,
                forall|k: int| 0 <= k < i ==> r.row_model(k) == t[k],
            decreases t.len() - i,
        {
            let e = &events.0[i];
            r.s3_object_ids.push(e.s3_object_id);
            r.event_times.push(crate::text::duplicate_opt_string(&e.event_time));
            r.buckets.push(e.bucket.clone());
            r.keys.push(e.key.clone());
            r.sizes.push(e.size);
            r.e_tags.push(crate::text::duplicate_opt_string(&e.e_tag));
            r.sha256s.push(crate::text::duplicate_opt_string(&e.sha256));
            r.sequencers.push(crate::text::duplicate_opt_string(&e.sequencer));
            r.version_ids.push(e.version_id.clone());
            r.storage_classes.push(e.storage_class);
            r.last_modified_dates.push(crate::text::duplicate_opt_string(&e.last_modified_date));
            r.event_types.push(e.event_type);
            r.is_delete_markers.push(e.is_delete_marker);
            r.is_current_states.push(e.is_current_state);
            r.reasons.push(e.reason);
            r.archive_statuses.push(e.archive_status);
            r.ingest_ids.push(e.ingest_id);
            r.attributes.push(duplicate_opt_json(&e.attributes));
            r.number_duplicate_events.push(e.number_duplicate_events);
            r.number_reordered.push(e.number_reordered);
            proof {
                assert(r.row_model(i as int) == t[i as int]);
            }
            i = i + 1;
        }
        proof {
            assert(r@ =~= t);
        }
        r
    }

    /// Turn the parallel-array form back into flat records, in order.
    #[verifier::loop_isolation(false)]
    pub fn to_flat(&self) -> (r: FlatS3EventMessages)
        requires
            self.wf(),
        ensures
            r@ == self@,
    {
        let mut out: Vec<FlatS3EventMessage> = Vec::new();
        let n = self.s3_object_ids.len();
        let mut i: usize = 0;
        while i < n
            invariant
                i <= n,
                n == self.s3_object_ids@.len(),
                out@.len() == i,
                forall|k: int| 0 <= k < i ==> events_model(out@)[k] == self.row_model(k),
            decreases n - i,
        {
            let row = FlatS3EventMessage {
                s3_object_id: self.s3_object_ids[i],
                event_time: crate::text::duplicate_opt_string(&self.event_times[i]),
                bucket: self.buckets[i].clone(),
                key: self.keys[i].clone(),
                size: self.sizes[i],
                e_tag: crate::text::duplicate_opt_string(&self.e_tags[i]),
                sha256: crate::text::duplicate_opt_string(&self.sha256s[i]),
                sequencer: crate::text::duplicate_opt_string(&self.sequencers[i]),
                version_id: self.version_ids[i].clone(),
                storage_class: self.storage_classes[i],
                last_modified_date: crate::text::duplicate_opt_string(
                    &self.last_modified_dates[i],
                ),
                event_type: self.event_types[i],
                is_delete_marker: self.is_delete_markers[i],
                is_current_state: self.is_current_states[i],
                reason: self.reasons[i],
                archive_status: self.archive_statuses[i],
                ingest_id: self.ingest_ids[i],
                attributes: duplicate_opt_json(&self.attributes[i]),
                number_duplicate_events: self.number_duplicate_events[i],
                number_reordered: self.number_reordered[i],
            };
            let ghost rv = row@;
            let ghost prev = events_model(out@);
            proof {
                assert(rv == self.row_model(i as int));
            }
            out.push(row);
            proof {
                assert(events_model(out@) =~= prev.push(rv));
            }
            i = i + 1;
        }
        proof {
            assert(events_model(out@) =~= self@);
        }
        FlatS3EventMessages(out)
    }
}

} // verus!
