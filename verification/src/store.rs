//! What the engine computes around the object store: the version-id
//! sentinel on wire calls, crawl records from bucket listings, head
//! metadata enrichment, the ingest tag read from object tagging, and the
//! merging of listing pages.

use vstd::prelude::*;

use crate::event::{EventModel, EventType, FlatS3EventMessage, FlatS3EventMessages, Reason};
use crate::ids::uuid_parsed;
use crate::text::{null_version_id, opt_view, spec_quoted};

verus! {

/// Maximum number of pages fetched for one listing.
pub const MAX_LIST_ITERATIONS: usize = 1000000;

/// Override settings related to response headers.
pub struct ResponseHeaders {
    content_disposition: String,
    content_type: Option<String>,
    content_encoding: Option<String>,
}

impl View for ResponseHeaders {
    type V = (Seq<char>, Option<Seq<char>>, Option<Seq<char>>);

    closed spec fn view(&self) -> (Seq<char>, Option<Seq<char>>, Option<Seq<char>>) {
        (self.content_disposition@, opt_view(self.content_type), opt_view(self.content_encoding))
    }
}

impl ResponseHeaders {
    /// Create a new `ResponseHeaders` config.
    pub fn new(
        content_disposition: String,
        content_type: Option<String>,
        content_encoding: Option<String>,
    ) -> (r: ResponseHeaders)
        ensures
            r@ == (content_disposition@, opt_view(content_type), opt_view(content_encoding)),
    {
        ResponseHeaders { content_disposition, content_type, content_encoding }
    }

    /// Get the content disposition.
    pub fn content_disposition(&self) -> (r: &str)
        ensures
            r@ == self@.0,
    {
        self.content_disposition.as_str()
    }

    /// Get the content type.
    pub fn content_type(&self) -> (r: Option<&str>)
        ensures
            match r {
                Option::Some(s) => self@.1 == Option::Some(s@),
                Option::None => self@.1 is None,
            },
    {
        match &self.content_type {
            Option::Some(s) => Option::Some(s.as_str()),
            Option::None => Option::None,
        }
    }

    /// Get the content encoding.
    pub fn content_encoding(&self) -> (r: Option<&str>)
        ensures
            match r {
                Option::Some(s) => self@.2 == Option::Some(s@),
                Option::None => self@.2 is None,
            },
    {
        match &self.content_encoding {
            Option::Some(s) => Option::Some(s.as_str()),
            Option::None => Option::None,
        }
    }
}

/// The version id a wire call carries: none at all when the stored id is
/// the `"null"` sentinel of an unversioned bucket.
pub fn get_version_id(version_id: &str) -> (r: Option<String>)
    ensures
        version_id@ == null_version_id() ==> r is None,
        version_id@ != null_version_id() ==> (r matches Option::Some(s) && s@ == version_id@),
{
    if crate::text::str_eq(version_id, crate::text::default_version_id().as_str()) {
        Option::None
    } else {
        Option::Some(String::from_str(version_id))
    }
}

/// One entry of a bucket listing, as the engine reads it.
pub struct ObjectVersionEntry {
    pub key: Option<String>,
    pub version_id: Option<String>,
    pub size: Option<i64>,
    pub e_tag: Option<String>,
    pub is_latest: Option<bool>,
    /// Whether the entry carries a restore expiry timestamp.
    pub has_restore_expiry: bool,
}

/// The quoted form of an optional ETag.
pub open spec fn opt_quoted(o: Option<Seq<char>>) -> Option<Seq<char>> {
    match o {
        Option::Some(t) => Option::Some(spec_quoted(t)),
        Option::None => Option::None,
    }
}

/// Whether `em` is the crawl record emitted for a listing entry: a
/// `Created` event for the entry's version, without a sequencer, flagged
/// current, with `CrawlRestored` provenance exactly when the entry carries
/// a restore expiry. Only the record id is left open.
pub open spec fn matches_crawl_record(
    entry: ObjectVersionEntry,
    bucket: Seq<char>,
    event_time: Option<Seq<char>>,
    em: EventModel,
) -> bool {
    &&& em.bucket == bucket
    &&& em.key == (match opt_view(entry.key) {
        Option::Some(k) => k,
        Option::None => Seq::<char>::empty(),
    })
    &&& em.version_id == (match opt_view(entry.version_id) {
        Option::Some(v) => v,
        Option::None => null_version_id(),
    })
    &&& em.size == entry.size
    &&& em.e_tag == opt_quoted(opt_view(entry.e_tag))
    &&& em.sequencer is None
    &&& em.event_type == EventType::Created
    &&& em.is_current_state == true
    &&& em.is_delete_marker == false
    &&& em.reason == (if entry.has_restore_expiry {
        Reason::CrawlRestored
    } else {
        Reason::Crawl
    })
    &&& em.event_time == event_time
    &&& em.storage_class is None
    &&& em.last_modified_date is None
    &&& em.sha256 is None
    &&& em.archive_status is None
    &&& em.ingest_id is None
    &&& em.attributes is None
    &&& em.number_duplicate_events == 0
    &&& em.number_reordered == 0
}

/// The listing entries marked latest, in listing order.
pub open spec fn latest_entries(s: Seq<ObjectVersionEntry>) -> Seq<ObjectVersionEntry>
    decreases s.len(),
{
    if s.len() == 0 {
        Seq::empty()
    } else {
        let rest = latest_entries(s.drop_last());
        if s.last().is_latest == Option::Some(true) {
            rest.push(s.last())
        } else {
            rest
        }
    }
}

/// The crawl record for one listing entry: a synthetic `Created` event
/// with no sequencer, to be ordered by the ingester's synthesis.
pub fn crawl_record(
    entry: &ObjectVersionEntry,
    bucket: &str,
    event_time: &Option<String>,
) -> (r: FlatS3EventMessage)
    ensures
        matches_crawl_record(*entry, bucket@, opt_view(*event_time), r@),
{
    let key = match &entry.key {
        Option::Some(k) => k.clone(),
        Option::None => String::new(),
    };
    let version_id = match &entry.version_id {
        Option::Some(v) => v.clone(),
        Option::None => crate::text::default_version_id(),
    };
    let e_tag = match &entry.e_tag {
        Option::Some(t) => Option::Some(crate::text::quote_e_tag(t.clone())),
        Option::None => Option::None,
    };
    let reason = if entry.has_restore_expiry {
        Reason::CrawlRestored
    } else {
        Reason::Crawl
    };
    FlatS3EventMessage::new_with_generated_id()
        .with_bucket(String::from_str(bucket))
        .with_key(key)
        .with_version_id(version_id)
        .with_size(entry.size)
        .with_e_tag(e_tag)
        .with_event_time(crate::text::duplicate_opt_string(event_time))
        .with_event_type(EventType::Created)
        .with_is_current_state(true)
        .with_reason(reason)
}

/// The crawl records emitted for a bucket listing: one synthetic `Created`
/// event per entry marked latest, in listing order.
#[verifier::loop_isolation(false)]
pub fn crawl_messages_from_listing(
    entries: &Vec<ObjectVersionEntry>,
    bucket: &str,
    event_time: &Option<String>,
) -> (r: FlatS3EventMessages)
    ensures
        r@.len() == latest_entries(entries@).len(),
        forall|i: int|
            0 <= i < r@.len() ==> matches_crawl_record(
                latest_entries(entries@)[i],
                bucket@,
                opt_view(*event_time),
                #[trigger] r@[i],
            ),
{
    let ghost t = entries@;
    let mut out: Vec<FlatS3EventMessage> = Vec::new();
    let mut i: usize = 0;
    while i < entries.len()
        invariant
            i <= t.len(),
            out@.len() == latest_entries(t.subrange(0, i as int)).len(),
            forall|k: int|
                0 <= k < out@.len() ==> matches_crawl_record(
                    latest_entries(t.subrange(0, i as int))[k],
                    bucket@,
                    opt_view(*event_time),
                    #[trigger] crate::event::events_model(out@)[k],
                ),
        decreases t.len() - i,
    {
        proof {
            assert(t.subrange(0, i + 1).drop_last() =~= t.subrange(0, i as int));
            assert(t.subrange(0, i + 1).last() == t[i as int]);
        }
        let e = &entries[i];
        let is_latest = match e.is_latest {
            Option::Some(b) => b,
            Option::None => false,
        };
        if is_latest {
            let rec = crawl_record(e, bucket, event_time);
            let ghost rv = rec@;
            let ghost prev = crate::event::events_model(out@);
            out.push(rec);
            proof {
                assert(crate::event::events_model(out@) =~= prev.push(rv));
            }
        }
        i = i + 1;
    }
    proof {
        assert(t.subrange(0, t.len() as int) =~= t);
    }
    FlatS3EventMessages(out)
}

/// The head metadata fields an enrichment call yields.
pub struct HeadFields {
    pub size: Option<i64>,
    pub e_tag: Option<String>,
    pub storage_class: Option<crate::event::StorageClass>,
    pub last_modified_date: Option<String>,
    pub archive_status: Option<crate::event::ArchiveStatus>,
    pub sha256: Option<String>,
}

/// A record enriched with head metadata: size, quoted ETag, storage class,
/// last-modified date, archive status and checksum taken from the head
/// answer; everything else kept.
pub fn apply_head(ev: FlatS3EventMessage, head: &HeadFields) -> (r: FlatS3EventMessage)
    ensures
        r@ == (EventModel {
            size: head.size,
            e_tag: opt_quoted(opt_view(head.e_tag)),
            storage_class: head.storage_class,
            last_modified_date: opt_view(head.last_modified_date),
            archive_status: head.archive_status,
            sha256: opt_view(head.sha256),
            ..ev@
        }),
{
    let e_tag = match &head.e_tag {
        Option::Some(t) => Option::Some(crate::text::quote_e_tag(t.clone())),
        Option::None => Option::None,
    };
    ev.with_size(head.size)
        .with_e_tag(e_tag)
        .with_storage_class(head.storage_class)
        .with_last_modified_date(crate::text::duplicate_opt_string(&head.last_modified_date))
        .with_archive_status(head.archive_status)
        .with_sha256(crate::text::duplicate_opt_string(&head.sha256))
}

/// The first index of a tag with the given key, or -1.
pub open spec fn first_tag(tags: Seq<(String, String)>, name: Seq<char>) -> int
    decreases tags.len(),
{
    if tags.len() == 0 {
        -1
    } else if tags[0].0@ == name {
        0
    } else {
        let r = first_tag(tags.skip(1), name);
        if r == -1 {
            -1
        } else {
            r + 1
        }
    }
}

/// `first_tag` finds the first matching tag, or reports none.
pub proof fn lemma_first_tag_props(tags: Seq<(String, String)>, name: Seq<char>)
    ensures
        -1 <= first_tag(tags, name) < tags.len(),
        first_tag(tags, name) >= 0 ==> tags[first_tag(tags, name)].0@ == name,
        first_tag(tags, name) >= 0 ==> forall|j: int|
            0 <= j < first_tag(tags, name) ==> tags[j].0@ != name,
        first_tag(tags, name) == -1 ==> forall|j: int| 0 <= j < tags.len() ==> tags[j].0@ != name,
    decreases tags.len(),
{
    if tags.len() > 0 && tags[0].0@ != name {
        lemma_first_tag_props(tags.skip(1), name);
        assert forall|j: int| 1 <= j < tags.len() implies tags[j] == tags.skip(1)[j - 1] by {}
    }
}

/// The ingest id read from object tagging: the value of the first tag
/// named like the configured ingest tag, when it parses as a UUID.
pub open spec fn spec_ingest_id_from_tags(tags: Seq<(String, String)>, name: Seq<char>) -> Option<
    u128,
> {
    let f = first_tag(tags, name);
    if f < 0 {
        Option::None
    } else {
        uuid_parsed(tags[f].1@)
    }
}

/// Read the ingest id from an object's tag set.
#[verifier::loop_isolation(false)]
pub fn ingest_id_from_tags(tags: &Vec<(String, String)>, tag_name: &str) -> (r: Option<u128>)
    ensures
        r == spec_ingest_id_from_tags(tags@, tag_name@),
{
    proof {
        lemma_first_tag_props(tags@, tag_name@);
    }
    let mut j: usize = 0;
    while j < tags.len()
        invariant
            j <= tags@.len(),
            forall|jj: int| 0 <= jj < j ==> tags@[jj].0@ != tag_name@,
        decreases tags@.len() - j,
    {
        if crate::text::str_eq(tags[j].0.as_str(), tag_name) {
            proof {
                let f = first_tag(tags@, tag_name@);
                if f == -1 {
                    assert(tags@[j as int].0@ != tag_name@);
                } else if f < j as int {
                    assert(tags@[f].0@ != tag_name@);
                } else if f > j as int {
                    assert(tags@[j as int].0@ != tag_name@);
                }
            }
            return crate::ids::parse_uuid(tags[j].1.as_str());
        }
        j = j + 1;
    }
    Option::None
}

/// One page of a bucket listing, as the engine reads it.
pub struct ListPage {
    pub versions: Vec<ObjectVersionEntry>,
    pub is_truncated: Option<bool>,
    pub next_key_marker: Option<String>,
    pub next_version_id_marker: Option<String>,
    pub max_keys: Option<i64>,
}

/// Whether pagination must continue after this page.
pub fn should_continue(page: &ListPage) -> (r: bool)
    ensures
        r == (page.is_truncated == Option::Some(true)),
{
    match page.is_truncated {
        Option::Some(b) => b,
        Option::None => false,
    }
}

/// Merge an earlier accumulated page into the freshly fetched one: the new
/// page's entries come first, then the accumulated ones; markers and the
/// truncation flag are the fresh page's; the key counts are summed,
/// saturating rather than overflowing.
pub fn merge_pages(next: ListPage, prev: ListPage) -> (r: ListPage)
    ensures
        r.versions@ == next.versions@ + prev.versions@,
        r.is_truncated == next.is_truncated,
        r.next_key_marker == next.next_key_marker,
        r.next_version_id_marker == next.next_version_id_marker,
        r.max_keys matches Option::Some(k) && k == clamp_i64(
            unwrap_i64(next.max_keys) + unwrap_i64(prev.max_keys),
        ),
{
    let mut next = next;
    let mut prev = prev;
    next.versions.append(&mut prev.versions);
    let a = match next.max_keys {
        Option::Some(k) => k,
        Option::None => 0,
    };
    let b = match prev.max_keys {
        Option::Some(k) => k,
        Option::None => 0,
    };
    let sum = if a >= 0 && b > i64::MAX - a {
        i64::MAX
    } else if a < 0 && b < i64::MIN - a {
        i64::MIN
    } else {
        a + b
    };
    next.max_keys = Option::Some(sum);
    next
}

/// An optional count, defaulting to zero.
pub open spec fn unwrap_i64(o: Option<i64>) -> int {
    match o {
        Option::Some(k) => k as int,
        Option::None => 0,
    }
}

/// An integer clamped into a signed 64-bit count.
pub open spec fn clamp_i64(x: int) -> i64 {
    if x > i64::MAX {
        i64::MAX
    } else if x < i64::MIN {
        i64::MIN
    } else {
        x as i64
    }
}

} // verus!
