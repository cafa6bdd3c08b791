//! The in-memory model of the `s3_object` table and its transactional
//! ingest: bulk upsert with duplicate collapsing, reorder observation,
//! synthesis of sequencers for crawl records, current-state reconciliation
//! under the live-set rule, and attribute carry-over across re-crawls.

use vstd::prelude::*;

use crate::event::{
    ev_ord_lt, etype_rank, events_model, is_crawl_reason, same_identity, same_key5, same_version,
    EventModel, EventType, FlatS3EventMessage, FlatS3EventMessages, Reason,
};
use crate::json::JsonModel;
use crate::text::{crawl_default_base, crawl_suffix, lex_lt};

verus! {

/// A counter bumped by one, saturating at its maximum.
pub open spec fn bump64(c: u64) -> u64 {
    if c < u64::MAX {
        (c + 1) as u64
    } else {
        c
    }
}

/// An integer clamped into a 64-bit counter.
pub open spec fn clamp64(x: int) -> u64 {
    if x < 0 {
        0
    } else if x > u64::MAX {
        u64::MAX
    } else {
        x as u64
    }
}

/// The record with its duplicate counter bumped by one.
pub open spec fn bump_dups(e: EventModel) -> EventModel {
    EventModel { number_duplicate_events: bump64(e.number_duplicate_events), ..e }
}

/// The survivor of collapsing a duplicate `d` into `e`: the duplicate's
/// accumulated count is absorbed, plus one for the collapsed row itself.
pub open spec fn absorb_dups(e: EventModel, d: EventModel) -> EventModel {
    EventModel {
        number_duplicate_events: clamp64(
            e.number_duplicate_events + d.number_duplicate_events + 1,
        ),
        ..e
    }
}

/// The first index of `t` whose record shares the upsert conflict key with
/// `e`, or -1.
pub open spec fn find_key5(t: Seq<EventModel>, e: EventModel) -> int
    decreases t.len(),
{
    if t.len() == 0 {
        -1
    } else if same_key5(t[0], e) {
        0
    } else {
        let r = find_key5(t.skip(1), e);
        if r == -1 {
            -1
        } else {
            r + 1
        }
    }
}

/// `find_key5` returns the first matching index, or -1 when none matches.
pub proof fn lemma_find_key5_props(t: Seq<EventModel>, e: EventModel)
    ensures
        -1 <= find_key5(t, e) < t.len(),
        find_key5(t, e) >= 0 ==> same_key5(t[find_key5(t, e)], e),
        find_key5(t, e) >= 0 ==> forall|j: int| 0 <= j < find_key5(t, e) ==> !same_key5(t[j], e),
        find_key5(t, e) == -1 ==> forall|j: int| 0 <= j < t.len() ==> !same_key5(t[j], e),
    decreases t.len(),
{
    if t.len() > 0 && !same_key5(t[0], e) {
        lemma_find_key5_props(t.skip(1), e);
        assert forall|j: int| 1 <= j < t.len() implies t[j] == t.skip(1)[j - 1] by {}
    }
}

/// Well-formedness of the table: no two rows share the upsert conflict key.
pub open spec fn wf_table(t: Seq<EventModel>) -> bool {
    forall|i: int, j: int|
        0 <= i < j < t.len() ==> !same_key5(#[trigger] t[i], #[trigger] t[j])
}

/// The number of rows of `t0` for the same version as `e` whose present
/// sequencer orders strictly after `e`: how many already-stored events the
/// newly arrived `e` overtook. Rows without a sequencer, and an `e` without
/// one, observe no reordering.
pub open spec fn reorder_count(t0: Seq<EventModel>, e: EventModel) -> int
    decreases t0.len(),
{
    if t0.len() == 0 {
        0
    } else {
        let prefix = reorder_count(t0.drop_last(), e);
        let r = t0.last();
        if same_version(r, e) && r.sequencer is Some && e.sequencer is Some && ev_ord_lt(e, r) {
            prefix + 1
        } else {
            prefix
        }
    }
}

/// A batch record prepared for insertion: its reorder counter observes the
/// rows of the pre-batch table `t0` it overtook.
pub open spec fn prepared(t0: Seq<EventModel>, e: EventModel) -> EventModel {
    EventModel { number_reordered: clamp64(reorder_count(t0, e)), ..e }
}

/// One upsert step: a record whose conflict key already exists collapses
/// into the existing row by bumping its duplicate counter; otherwise the
/// prepared record is appended.
pub open spec fn upsert_one(t0: Seq<EventModel>, t: Seq<EventModel>, e: EventModel) -> Seq<
    EventModel,
> {
    let f = find_key5(t, e);
    if f >= 0 {
        t.update(f, bump_dups(t[f]))
    } else {
        t.push(prepared(t0, e))
    }
}

/// The bulk upsert of a batch, in batch order, against the pre-batch table
/// `t0` for reorder observation.
pub open spec fn upsert_all(t0: Seq<EventModel>, t: Seq<EventModel>, b: Seq<EventModel>) -> Seq<
    EventModel,
>
    decreases b.len(),
{
    if b.len() == 0 {
        t
    } else {
        upsert_all(t0, upsert_one(t0, t, b[0]), b.subrange(1, b.len() as int))
    }
}

/// Upserting a concatenation is upserting each part in turn.
pub proof fn lemma_upsert_append(
    t0: Seq<EventModel>,
    t: Seq<EventModel>,
    b1: Seq<EventModel>,
    b2: Seq<EventModel>,
)
    ensures
        upsert_all(t0, t, b1 + b2) == upsert_all(t0, upsert_all(t0, t, b1), b2),
    decreases b1.len(),
{
    if b1.len() == 0 {
        assert(b1 + b2 =~= b2);
    } else {
        assert((b1 + b2)[0] == b1[0]);
        assert((b1 + b2).subrange(1, (b1 + b2).len() as int) =~= b1.subrange(
            1,
            b1.len() as int,
        ) + b2);
        lemma_upsert_append(t0, upsert_one(t0, t, b1[0]), b1.subrange(1, b1.len() as int), b2);
    }
}

/// Whether a record still awaits a synthesized sequencer: it is
/// crawl-originated and carries none.
pub open spec fn is_unsynthesized(e: EventModel) -> bool {
    e.sequencer is None && is_crawl_reason(e.reason)
}

/// The greatest present sequencer among rows of the same version that
/// were not themselves crawl-originated, when the version has one.
pub open spec fn synth_base_opt(t: Seq<EventModel>, e: EventModel) -> Option<Seq<char>>
    decreases t.len(),
{
    if t.len() == 0 {
        Option::None
    } else {
        let b = synth_base_opt(t.drop_last(), e);
        let r = t.last();
        if same_version(r, e) && !is_crawl_reason(r.reason) && r.sequencer is Some && (b is None
            || lex_lt(b->0, r.sequencer->0)) {
            Option::Some(r.sequencer->0)
        } else {
            b
        }
    }
}

/// The base for a synthesized crawl sequencer: the greatest present
/// sequencer among the version's rows that were not themselves
/// crawl-originated, or the fixed zero-prefix base when there is none.
pub open spec fn synth_base(t: Seq<EventModel>, e: EventModel) -> Seq<char> {
    match synth_base_opt(t, e) {
        Option::Some(s) => s,
        Option::None => crawl_default_base(),
    }
}

/// The record with its synthesized sequencer: the base for its version
/// followed by the fixed suffix, so that it sorts immediately after the
/// greatest live sequencer.
pub open spec fn synthesized_of(t: Seq<EventModel>, e: EventModel) -> EventModel {
    EventModel { sequencer: Some(synth_base(t, e) + crawl_suffix()), ..e }
}

/// Every crawl record without a sequencer given its synthesized one, each
/// computed against the same table.
pub open spec fn synth_map(t: Seq<EventModel>) -> Seq<EventModel> {
    Seq::new(
        t.len(),
        |i: int|
            if is_unsynthesized(t[i]) {
                synthesized_of(t, t[i])
            } else {
                t[i]
            },
    )
}

/// Collapse rows that share a conflict key, keeping first occurrences in
/// order; a collapsed row's duplicate count is absorbed by its survivor.
pub open spec fn dedup_into(acc: Seq<EventModel>, s: Seq<EventModel>) -> Seq<EventModel>
    decreases s.len(),
{
    if s.len() == 0 {
        acc
    } else {
        let f = find_key5(acc, s[0]);
        let acc2 = if f >= 0 {
            acc.update(f, absorb_dups(acc[f], s[0]))
        } else {
            acc.push(s[0])
        };
        dedup_into(acc2, s.subrange(1, s.len() as int))
    }
}

/// Deduplicating a concatenation is deduplicating each part in turn.
pub proof fn lemma_dedup_append(acc: Seq<EventModel>, s1: Seq<EventModel>, s2: Seq<EventModel>)
    ensures
        dedup_into(acc, s1 + s2) == dedup_into(dedup_into(acc, s1), s2),
    decreases s1.len(),
{
    if s1.len() == 0 {
        assert(s1 + s2 =~= s2);
    } else {
        assert((s1 + s2)[0] == s1[0]);
        assert((s1 + s2).subrange(1, (s1 + s2).len() as int) =~= s1.subrange(
            1,
            s1.len() as int,
        ) + s2);
        let f = find_key5(acc, s1[0]);
        let acc2 = if f >= 0 {
            acc.update(f, absorb_dups(acc[f], s1[0]))
        } else {
            acc.push(s1[0])
        };
        lemma_dedup_append(acc2, s1.subrange(1, s1.len() as int), s2);
    }
}

/// Upserting a single record is one upsert step.
pub proof fn lemma_upsert_single(t0: Seq<EventModel>, t: Seq<EventModel>, e: EventModel)
    ensures
        upsert_all(t0, t, seq![e]) == upsert_one(t0, t, e),
{
    let s = seq![e];
    assert(s.len() == 1);
    assert(s[0] == e);
    assert(s.subrange(1, 1) =~= Seq::<EventModel>::empty());
    assert(upsert_all(t0, upsert_one(t0, t, e), Seq::<EventModel>::empty()) == upsert_one(
        t0,
        t,
        e,
    ));
}

/// Deduplicating a single record is one collapse step.
pub proof fn lemma_dedup_single(acc: Seq<EventModel>, e: EventModel)
    ensures
        dedup_into(acc, seq![e]) == (if find_key5(acc, e) >= 0 {
            acc.update(find_key5(acc, e), absorb_dups(acc[find_key5(acc, e)], e))
        } else {
            acc.push(e)
        }),
{
    let s = seq![e];
    assert(s.len() == 1);
    assert(s[0] == e);
    assert(s.subrange(1, 1) =~= Seq::<EventModel>::empty());
    let f = find_key5(acc, e);
    let acc2 = if f >= 0 {
        acc.update(f, absorb_dups(acc[f], e))
    } else {
        acc.push(e)
    };
    assert(dedup_into(acc2, Seq::<EventModel>::empty()) == acc2);
}

/// The synthesis pass: give crawl records their sequencers, then collapse
/// any that now collide with an existing row.
pub open spec fn synth_pass(t: Seq<EventModel>) -> Seq<EventModel> {
    dedup_into(Seq::empty(), synth_map(t))
}

/// The latest event recorded for the version of `e`: the row of `t` for the
/// same version that is greatest in the per-version event order.
pub open spec fn last_of_version(t: Seq<EventModel>, e: EventModel) -> Option<EventModel>
    decreases t.len(),
{
    if t.len() == 0 {
        Option::None
    } else {
        let rest = last_of_version(t.drop_last(), e);
        let r = t.last();
        if same_version(r, e) {
            match rest {
                Option::None => Option::Some(r),
                Option::Some(m) => if ev_ord_lt(m, r) {
                    Option::Some(r)
                } else {
                    Option::Some(m)
                },
            }
        } else {
            rest
        }
    }
}

/// The live-set rule for one version: a version is live unless its latest
/// event is a permanent delete. A delete marker is itself a version and
/// stays live until permanently deleted.
pub open spec fn version_live(t: Seq<EventModel>, e: EventModel) -> bool {
    match last_of_version(t, e) {
        Option::None => false,
        Option::Some(m) => !(m.event_type == EventType::Deleted && !m.is_delete_marker),
    }
}

/// The order in which the current version is chosen among live versions:
/// by the latest event's `(sequencer, event_type)`, with the version id as
/// the deterministic tie-break.
pub open spec fn ver_key_lt(a: EventModel, b: EventModel) -> bool {
    ev_ord_lt(a, b) || (a.sequencer == b.sequencer && etype_rank(a.event_type) == etype_rank(
        b.event_type,
    ) && lex_lt(a.version_id, b.version_id))
}

/// Whether the row `e` of `t` is the current state of its `(bucket, key)`
/// identity: its version is live, `e` is that version's latest event, and
/// every other live version of the identity orders below it.
pub open spec fn is_current_row(t: Seq<EventModel>, e: EventModel) -> bool {
    &&& version_live(t, e)
    &&& last_of_version(t, e) == Option::Some(e)
    &&& forall|j: int|
        0 <= j < t.len() && same_identity(#[trigger] t[j], e) && !same_version(t[j], e)
            && version_live(t, t[j]) ==> ver_key_lt(last_of_version(t, t[j])->0, e)
}

/// Whether a record's `(bucket, key)` identity occurs in the batch.
pub open spec fn affected(b: Seq<EventModel>, e: EventModel) -> bool {
    exists|i: int| 0 <= i < b.len() && same_identity(#[trigger] b[i], e)
}

/// The reconciliation pass: recompute the current-state flag of every row
/// whose identity the batch touched.
pub open spec fn reconcile_pass(t: Seq<EventModel>, b: Seq<EventModel>) -> Seq<EventModel> {
    Seq::new(
        t.len(),
        |i: int|
            if affected(b, t[i]) {
                EventModel { is_current_state: is_current_row(t, t[i]), ..t[i] }
            } else {
                t[i]
            },
    )
}

/// The latest row of the version of `e` that carries attributes.
pub open spec fn best_attr_row(t: Seq<EventModel>, e: EventModel) -> Option<EventModel>
    decreases t.len(),
{
    if t.len() == 0 {
        Option::None
    } else {
        let rest = best_attr_row(t.drop_last(), e);
        let r = t.last();
        if same_version(r, e) && r.attributes is Some {
            match rest {
                Option::None => Option::Some(r),
                Option::Some(m) => if ev_ord_lt(m, r) {
                    Option::Some(r)
                } else {
                    Option::Some(m)
                },
            }
        } else {
            rest
        }
    }
}

/// The attributes carried over onto a crawl record: those of the latest row
/// of its version that has any.
pub open spec fn carried_attrs(t: Seq<EventModel>, e: EventModel) -> Option<JsonModel> {
    match best_attr_row(t, e) {
        Option::None => Option::None,
        Option::Some(m) => m.attributes,
    }
}

/// The carry-over pass: a crawl record without attributes receives those of
/// the latest row of its version that has any, preserving user metadata
/// across re-crawls.
pub open spec fn carry_pass(t: Seq<EventModel>) -> Seq<EventModel> {
    Seq::new(
        t.len(),
        |i: int|
            if is_crawl_reason(t[i].reason) && t[i].attributes is None {
                EventModel { attributes: carried_attrs(t, t[i]), ..t[i] }
            } else {
                t[i]
            },
    )
}

/// One transactional ingest of a batch: upsert with duplicate collapsing
/// and reorder observation, sequencer synthesis for crawl records,
/// current-state reconciliation of the touched identities, and attribute
/// carry-over.
pub open spec fn spec_ingest(t: Seq<EventModel>, b: Seq<EventModel>) -> Seq<EventModel> {
    carry_pass(reconcile_pass(synth_pass(upsert_all(t, t, b)), b))
}

/// A version with at least one row has a latest event.
pub proof fn lemma_last_some(t: Seq<EventModel>, e: EventModel, i: int)
    requires
        0 <= i < t.len(),
        same_version(t[i], e),
    ensures
        last_of_version(t, e) is Some,
        same_version(last_of_version(t, e)->0, e),
    decreases t.len(),
{
    lemma_last_in_table(t, e);
    if i < t.len() - 1 {
        lemma_last_some(t.drop_last(), e, i);
    }
}

/// The latest event of a version, when there is one, is a row of the table
/// for that version.
pub proof fn lemma_last_in_table(t: Seq<EventModel>, e: EventModel)
    ensures
        last_of_version(t, e) matches Option::Some(m) ==> exists|j: int|
            0 <= j < t.len() && t[j] == m && same_version(m, e),
    decreases t.len(),
{
    if t.len() > 0 {
        lemma_last_in_table(t.drop_last(), e);
        if last_of_version(t, e) is Some {
            let m = last_of_version(t, e)->0;
            if last_of_version(t.drop_last(), e) matches Option::Some(p) && p == m {
                let j = choose|j: int|
                    0 <= j < t.drop_last().len() && t.drop_last()[j] == m && same_version(m, e);
                assert(t[j] == m);
            }
        }
    }
}

/// A counter sum `a + d + 1`, saturating at the maximum.
pub(crate) fn absorb_counter_pub(a: u64, d: u64) -> (r: u64)
    ensures
        r == clamp64(a + d + 1),
{
    if d < u64::MAX && a < u64::MAX - d {
        a + d + 1
    } else {
        u64::MAX
    }
}

/// The in-memory model of the `s3_object` table: the rows the engine keeps
/// for every recorded object version.
pub struct S3ObjectTable {
    pub rows: Vec<FlatS3EventMessage>,
}

impl View for S3ObjectTable {
    type V = Seq<EventModel>;

    open spec fn view(&self) -> Seq<EventModel> {
        events_model(self.rows@)
    }
}

/// Find the first row sharing the upsert conflict key with `e`.
pub(crate) fn find_row_in(rows: &Vec<FlatS3EventMessage>, e: &FlatS3EventMessage) -> (r: Option<usize>)
    ensures
        match r {
            Option::Some(i) => find_key5(events_model(rows@), e@) == i as int && i < rows@.len(),
            Option::None => find_key5(events_model(rows@), e@) == -1,
        },
{
    proof {
        lemma_find_key5_props(events_model(rows@), e@);
    }
    let mut j: usize = 0;
    #[verifier::loop_isolation(false)]
    while j < rows.len()
        invariant
            j <= rows@.len(),
            forall|jj: int| 0 <= jj < j ==> !same_key5(events_model(rows@)[jj], e@),
        decreases rows@.len() - j,
    {
        if rows[j].matches_key5(e) {
            proof {
                let em = events_model(rows@);
                let f = find_key5(em, e@);
                assert(same_key5(em[j as int], e@));
                if f == -1 {
                    assert(!same_key5(em[j as int], e@));
                } else if f < j as int {
                    assert(same_key5(em[f], e@));
                    assert(!same_key5(em[f], e@));
                } else if f > j as int {
                    assert(!same_key5(em[j as int], e@));
                }
            }
            return Option::Some(j);
        }
        j = j + 1;
    }
    Option::None
}

/// How many stored events of the same version the arriving record overtook.
fn reorder_count_exec(rows: &Vec<FlatS3EventMessage>, e: &FlatS3EventMessage) -> (r: u64)
    ensures
        r == clamp64(reorder_count(events_model(rows@), e@)),
{
    let mut acc: u64 = 0;
    let mut j: usize = 0;
    #[verifier::loop_isolation(false)]
    while j < rows.len()
        invariant
            j <= rows@.len(),
            acc == clamp64(reorder_count(events_model(rows@).subrange(0, j as int), e@)),
            reorder_count(events_model(rows@).subrange(0, j as int), e@) >= 0,
        decreases rows@.len() - j,
    {
        let ghost em = events_model(rows@);
        proof {
            assert(em.subrange(0, j + 1).drop_last() =~= em.subrange(0, j as int));
            assert(em.subrange(0, j + 1).last() == em[j as int]);
        }
        let row = &rows[j];
        if row.matches_version(e) && row.sequencer.is_some() && e.sequencer.is_some() && e.ord_lt(
            row,
        ) {
            if acc < u64::MAX {
                acc = acc + 1;
            }
        }
        j = j + 1;
    }
    proof {
        assert(events_model(rows@).subrange(0, rows@.len() as int) =~= events_model(rows@));
    }
    acc
}

/// The base sequencer for synthesizing a crawl record's sequencer.
fn synth_base_exec(rows: &Vec<FlatS3EventMessage>, e: &FlatS3EventMessage) -> (r: String)
    ensures
        r@ == synth_base(events_model(rows@), e@),
{
    let mut best: Option<String> = Option::None;
    let mut j: usize = 0;
    #[verifier::loop_isolation(false)]
    while j < rows.len()
        invariant
            j <= rows@.len(),
            crate::text::opt_view(best) == synth_base_opt(
                events_model(rows@).subrange(0, j as int),
                e@,
            ),
        decreases rows@.len() - j,
    {
        let ghost em = events_model(rows@);
        proof {
            assert(em.subrange(0, j + 1).drop_last() =~= em.subrange(0, j as int));
            assert(em.subrange(0, j + 1).last() == em[j as int]);
        }
        let row = &rows[j];
        if row.matches_version(e) && !matches!(row.reason, Reason::Crawl | Reason::CrawlRestored) {
            match &row.sequencer {
                Option::Some(s) => {
                    let take = match &best {
                        Option::None => true,
                        Option::Some(b) => crate::text::str_lex_lt(b.as_str(), s.as_str()),
                    };
                    if take {
                        best = Option::Some(s.clone());
                    }
                },
                Option::None => {},
            }
        }
        j = j + 1;
    }
    proof {
        assert(events_model(rows@).subrange(0, rows@.len() as int) =~= events_model(rows@));
    }
    match best {
        Option::Some(s) => s,
        Option::None => crate::text::crawl_base_default(),
    }
}

/// The index of the latest event recorded for the version of `e`.
fn last_of_version_idx(rows: &Vec<FlatS3EventMessage>, e: &FlatS3EventMessage) -> (r: Option<
    usize,
>)
    ensures
        match r {
            Option::Some(i) => i < rows@.len() && last_of_version(events_model(rows@), e@)
                == Option::Some(events_model(rows@)[i as int]),
            Option::None => last_of_version(events_model(rows@), e@) is None,
        },
{
    let mut best: Option<usize> = Option::None;
    let mut j: usize = 0;
    #[verifier::loop_isolation(false)]
    while j < rows.len()
        invariant
            j <= rows@.len(),
            match best {
                Option::Some(bi) => bi < j && last_of_version(
                    events_model(rows@).subrange(0, j as int),
                    e@,
                ) == Option::Some(events_model(rows@)[bi as int]),
                Option::None => last_of_version(events_model(rows@).subrange(0, j as int), e@)
                    is None,
            },
        decreases rows@.len() - j,
    {
        let ghost em = events_model(rows@);
        proof {
            assert(em.subrange(0, j + 1).drop_last() =~= em.subrange(0, j as int));
            assert(em.subrange(0, j + 1).last() == em[j as int]);
        }
        let row = &rows[j];
        if row.matches_version(e) {
            match best {
                Option::None => {
                    best = Option::Some(j);
                },
                Option::Some(bi) => {
                    if rows[bi].ord_lt(row) {
                        best = Option::Some(j);
                    }
                },
            }
        }
        j = j + 1;
    }
    proof {
        assert(events_model(rows@).subrange(0, rows@.len() as int) =~= events_model(rows@));
    }
    best
}

/// The index of the latest row of the version of `e` that has attributes.
fn best_attr_idx(rows: &Vec<FlatS3EventMessage>, e: &FlatS3EventMessage) -> (r: Option<usize>)
    ensures
        match r {
            Option::Some(i) => i < rows@.len() && best_attr_row(events_model(rows@), e@)
                == Option::Some(events_model(rows@)[i as int]),
            Option::None => best_attr_row(events_model(rows@), e@) is None,
        },
{
    let mut best: Option<usize> = Option::None;
    let mut j: usize = 0;
    #[verifier::loop_isolation(false)]
    while j < rows.len()
        invariant
            j <= rows@.len(),
            match best {
                Option::Some(bi) => bi < j && best_attr_row(
                    events_model(rows@).subrange(0, j as int),
                    e@,
                ) == Option::Some(events_model(rows@)[bi as int]),
                Option::None => best_attr_row(events_model(rows@).subrange(0, j as int), e@)
                    is None,
            },
        decreases rows@.len() - j,
    {
        let ghost em = events_model(rows@);
        proof {
            assert(em.subrange(0, j + 1).drop_last() =~= em.subrange(0, j as int));
            assert(em.subrange(0, j + 1).last() == em[j as int]);
        }
        let row = &rows[j];
        if row.matches_version(e) && row.attributes.is_some() {
            match best {
                Option::None => {
                    best = Option::Some(j);
                },
                Option::Some(bi) => {
                    if rows[bi].ord_lt(row) {
                        best = Option::Some(j);
                    }
                },
            }
        }
        j = j + 1;
    }
    proof {
        assert(events_model(rows@).subrange(0, rows@.len() as int) =~= events_model(rows@));
    }
    best
}

/// Compare two latest events in the current-version choice order.
fn ver_lt(a: &FlatS3EventMessage, b: &FlatS3EventMessage) -> (r: bool)
    ensures
        r == ver_key_lt(a@, b@),
{
    if a.ord_lt(b) {
        true
    } else if crate::text::opt_str_eq(&a.sequencer, &b.sequencer) && a.event_type == b.event_type {
        crate::text::str_lex_lt(a.version_id.as_str(), b.version_id.as_str())
    } else {
        false
    }
}

/// Whether any record of the batch touches the identity of `e`.
fn affected_exec(batch: &FlatS3EventMessages, e: &FlatS3EventMessage) -> (r: bool)
    ensures
        r == affected(batch@, e@),
{
    let mut j: usize = 0;
    #[verifier::loop_isolation(false)]
    while j < batch.0.len()
        invariant
            j <= batch@.len(),
            forall|jj: int| 0 <= jj < j ==> !same_identity(#[trigger] batch@[jj], e@),
        decreases batch@.len() - j,
    {
        if batch.0[j].matches_identity(e.bucket.as_str(), e.key.as_str()) {
            proof {
                assert(same_identity(batch@[j as int], e@));
            }
            return true;
        }
        j = j + 1;
    }
    false
}

/// Whether row `i` is the current state of its identity.
fn is_current_row_exec(rows: &Vec<FlatS3EventMessage>, i: usize) -> (r: bool)
    requires
        i < rows@.len(),
        wf_table(events_model(rows@)),
    ensures
        r == is_current_row(events_model(rows@), events_model(rows@)[i as int]),
{
    let ghost em = events_model(rows@);
    let e = &rows[i];
    let last = last_of_version_idx(rows, e);
    proof {
        lemma_last_some(em, em[i as int], i as int);
    }
    let li = match last {
        Option::Some(li) => li,
        Option::None => {
            return false;
        },
    };
    // The version is live only if its latest event is not a permanent delete.
    let lrow = &rows[li];
    if matches!(lrow.event_type, EventType::Deleted) && !lrow.is_delete_marker {
        return false;
    }
    // Under well-formedness, this row is its version's latest event exactly
    // when the latest index is this row.
    if li != i {
        proof {
            if em[li as int] == em[i as int] {
                assert(same_key5(em[li as int], em[i as int]));
            }
        }
        return false;
    }
    // Every other live version of the identity must order below this row.
    let mut j: usize = 0;
    #[verifier::loop_isolation(false)]
    while j < rows.len()
        invariant
            j <= rows@.len(),
            forall|jj: int|
                0 <= jj < j && same_identity(#[trigger] em[jj], em[i as int]) && !same_version(
                    em[jj],
                    em[i as int],
                ) && version_live(em, em[jj]) ==> ver_key_lt(
                    last_of_version(em, em[jj])->0,
                    em[i as int],
                ),
        decreases rows@.len() - j,
    {
        let row = &rows[j];
        if row.matches_identity(e.bucket.as_str(), e.key.as_str()) && !row.matches_version(e) {
            let lj = last_of_version_idx(rows, row);
            proof {
                lemma_last_some(em, em[j as int], j as int);
            }
            let lji = match lj {
                Option::Some(lji) => lji,
                Option::None => {
                    return false;
                },
            };
            let ljrow = &rows[lji];
            let live = !(matches!(ljrow.event_type, EventType::Deleted) && !ljrow.is_delete_marker);
            if live && !ver_lt(ljrow, e) {
                return false;
            }
        }
        j = j + 1;
    }
    true
}

/// Collapsing a duplicate changes no key field.
pub proof fn lemma_key5_stable(a: EventModel, b: EventModel)
    ensures
        same_key5(bump_dups(a), b) == same_key5(a, b),
        same_key5(b, bump_dups(a)) == same_key5(b, a),
        forall|t0: Seq<EventModel>| same_key5(#[trigger] prepared(t0, a), b) == same_key5(a, b),
        forall|d: EventModel| same_key5(#[trigger] absorb_dups(a, d), b) == same_key5(a, b),
        forall|d: EventModel| same_key5(b, #[trigger] absorb_dups(a, d)) == same_key5(b, a),
{
}

/// The bulk upsert keeps the table well formed.
pub proof fn lemma_upsert_all_wf(t0: Seq<EventModel>, t: Seq<EventModel>, b: Seq<EventModel>)
    requires
        wf_table(t),
    ensures
        wf_table(upsert_all(t0, t, b)),
    decreases b.len(),
{
    if b.len() > 0 {
        let e = b[0];
        let f = find_key5(t, e);
        lemma_find_key5_props(t, e);
        let t2 = upsert_one(t0, t, e);
        assert forall|i: int, j: int| 0 <= i < j < t2.len() implies !same_key5(t2[i], t2[j]) by {
            if f >= 0 {
                lemma_key5_stable(t[f], t[i]);
                lemma_key5_stable(t[f], t[j]);
            } else {
                if j == t.len() {
                    lemma_key5_stable(e, t[i]);
                    assert(!same_key5(t[i], e));
                }
            }
        }
        lemma_upsert_all_wf(t0, t2, b.subrange(1, b.len() as int));
    }
}

/// Deduplication keeps the accumulator well formed.
pub proof fn lemma_dedup_wf(acc: Seq<EventModel>, s: Seq<EventModel>)
    requires
        wf_table(acc),
    ensures
        wf_table(dedup_into(acc, s)),
    decreases s.len(),
{
    if s.len() > 0 {
        let e = s[0];
        let f = find_key5(acc, e);
        lemma_find_key5_props(acc, e);
        let acc2 = if f >= 0 {
            acc.update(f, absorb_dups(acc[f], e))
        } else {
            acc.push(e)
        };
        assert forall|i: int, j: int| 0 <= i < j < acc2.len() implies !same_key5(acc2[i], acc2[j])
            by {
            if f >= 0 {
                lemma_key5_stable(acc[f], acc[i]);
                lemma_key5_stable(acc[f], acc[j]);
            } else {
                if j == acc.len() {
                    assert(!same_key5(acc[i], e));
                }
            }
        }
        lemma_dedup_wf(acc2, s.subrange(1, s.len() as int));
    }
}

/// The synthesis pass leaves a well-formed table, whatever it was given.
pub proof fn lemma_synth_pass_wf(t: Seq<EventModel>)
    ensures
        wf_table(synth_pass(t)),
{
    lemma_dedup_wf(Seq::empty(), synth_map(t));
}

/// Reconciliation and carry-over change no key field, so they keep the
/// table well formed.
pub proof fn lemma_flag_passes_wf(t: Seq<EventModel>, b: Seq<EventModel>)
    requires
        wf_table(t),
    ensures
        wf_table(reconcile_pass(t, b)),
        wf_table(carry_pass(t)),
        wf_table(carry_pass(reconcile_pass(t, b))),
{
    let r = reconcile_pass(t, b);
    assert forall|i: int, j: int| 0 <= i < j < r.len() implies !same_key5(r[i], r[j]) by {
        assert(!same_key5(t[i], t[j]));
    }
    let c = carry_pass(t);
    assert forall|i: int, j: int| 0 <= i < j < c.len() implies !same_key5(c[i], c[j]) by {
        assert(!same_key5(t[i], t[j]));
    }
    let cr = carry_pass(r);
    assert forall|i: int, j: int| 0 <= i < j < cr.len() implies !same_key5(cr[i], cr[j]) by {
        assert(!same_key5(r[i], r[j]));
    }
}

/// An ingest leaves a well-formed table, whatever it was given.
pub proof fn lemma_ingest_wf(t: Seq<EventModel>, b: Seq<EventModel>)
    ensures
        wf_table(spec_ingest(t, b)),
{
    lemma_synth_pass_wf(upsert_all(t, t, b));
    lemma_flag_passes_wf(synth_pass(upsert_all(t, t, b)), b);
}

impl S3ObjectTable {
    /// Well-formedness: no two rows share the upsert conflict key.
    pub open spec fn wf(&self) -> bool {
        wf_table(self@)
    }

    /// An empty table.
    pub fn new() -> (r: S3ObjectTable)
        ensures
            r@ =~= Seq::<EventModel>::empty(),
            r.wf(),
    {
        S3ObjectTable { rows: Vec::new() }
    }

    /// Step 1 and 2 of an ingest: bulk upsert of the batch in batch order,
    /// collapsing duplicates and observing reordered arrivals.
    #[verifier::loop_isolation(false)]
    fn upsert_phase(&mut self, batch: &FlatS3EventMessages)
        ensures
            final(self)@ == upsert_all(old(self)@, old(self)@, batch@),
    {
        let ghost t0 = self@;
        let mut counts: Vec<u64> = Vec::new();
        let mut bi: usize = 0;
        while bi < batch.0.len()
            invariant
                bi <= batch@.len(),
                counts@.len() == bi,
                self@ == t0,
                forall|k: int| 0 <= k < bi ==> counts@[k] == clamp64(
                    reorder_count(t0, #[trigger] batch@[k]),
                ),
            decreases batch@.len() - bi,
        {
            counts.push(reorder_count_exec(&self.rows, &batch.0[bi]));
            bi = bi + 1;
        }
        let mut bi: usize = 0;
        while bi < batch.0.len()
            invariant
                bi <= batch@.len(),
                counts@.len() == batch@.len(),
                forall|k: int| 0 <= k < batch@.len() ==> counts@[k] == clamp64(
                    reorder_count(t0, #[trigger] batch@[k]),
                ),
                self@ == upsert_all(t0, t0, batch@.subrange(0, bi as int)),
            decreases batch@.len() - bi,
        {
            let ghost cur = self@;
            let ghost bprefix = batch@.subrange(0, bi as int);
            let e = &batch.0[bi];
            match find_row_in(&self.rows, e) {
                Option::Some(idx) => {
                    let mut row = self.rows.remove(idx);
                    if row.number_duplicate_events < u64::MAX {
                        row.number_duplicate_events = row.number_duplicate_events + 1;
                    }
                    self.rows.insert(idx, row);
                    proof {
                        assert(self@ =~= cur.update(idx as int, bump_dups(cur[idx as int])));
                    }
                },
                Option::None => {
                    let mut row = e.duplicate();
                    row.number_reordered = counts[bi];
                    self.rows.push(row);
                    proof {
                        assert(self@ =~= cur.push(prepared(t0, batch@[bi as int])));
                    }
                },
            }
            proof {
                assert(batch@.subrange(0, bi + 1) =~= bprefix + seq![batch@[bi as int]]);
                lemma_upsert_append(t0, t0, bprefix, seq![batch@[bi as int]]);
                lemma_upsert_single(t0, cur, batch@[bi as int]);
            }
            bi = bi + 1;
        }
        proof {
            assert(batch@.subrange(0, batch@.len() as int) =~= batch@);
        }
    }

    /// Step 3 of an ingest: synthesize sequencers for crawl records and
    /// collapse any that now collide with an existing row.
    #[verifier::loop_isolation(false)]
    fn synth_phase(&mut self)
        ensures
            final(self)@ == synth_pass(old(self)@),
    {
        let ghost tu = self@;
        let mut out: Vec<FlatS3EventMessage> = Vec::new();
        let mut i: usize = 0;
        while i < self.rows.len()
            invariant
                i <= tu.len(),
                self@ == tu,
                out@.len() == i,
                forall|k: int| 0 <= k < i ==> events_model(out@)[k] == synth_map(tu)[k],
            decreases tu.len() - i,
        {
            let e = &self.rows[i];
            let ghost prev = events_model(out@);
            if e.sequencer.is_none() && matches!(e.reason, Reason::Crawl | Reason::CrawlRestored) {
                let base = synth_base_exec(&self.rows, e);
                let sseq = crate::text::synthesized_sequencer(base.as_str());
                let mut row = e.duplicate();
                row.sequencer = Option::Some(sseq);
                let ghost rv = row@;
                proof {
                    assert(rv == synth_map(tu)[i as int]);
                }
                out.push(row);
                proof {
                    assert(events_model(out@) =~= prev.push(rv));
                }
            } else {
                let row = self.rows[i].duplicate();
                let ghost rv = row@;
                proof {
                    assert(rv == synth_map(tu)[i as int]);
                }
                out.push(row);
                proof {
                    assert(events_model(out@) =~= prev.push(rv));
                }
            }
            i = i + 1;
        }
        proof {
            assert(events_model(out@) =~= synth_map(tu));
        }
        let ghost sm = events_model(out@);
        let mut acc: Vec<FlatS3EventMessage> = Vec::new();
        let mut i: usize = 0;
        while i < out.len()
            invariant
                i <= sm.len(),
                events_model(out@) == sm,
                events_model(acc@) == dedup_into(Seq::empty(), sm.subrange(0, i as int)),
            decreases sm.len() - i,
        {
            let ghost da = events_model(acc@);
            let e = &out[i];
            match find_row_in(&acc, e) {
                Option::Some(f) => {
                    let mut row = acc.remove(f);
                    row.number_duplicate_events = absorb_counter_pub(
                        row.number_duplicate_events,
                        e.number_duplicate_events,
                    );
                    acc.insert(f, row);
                    proof {
                        assert(events_model(acc@) =~= da.update(
                            f as int,
                            absorb_dups(da[f as int], sm[i as int]),
                        ));
                    }
                },
                Option::None => {
                    acc.push(e.duplicate());
                    proof {
                        assert(events_model(acc@) =~= da.push(sm[i as int]));
                    }
                },
            }
            proof {
                assert(sm.subrange(0, i + 1) =~= sm.subrange(0, i as int) + seq![sm[i as int]]);
                lemma_dedup_append(Seq::empty(), sm.subrange(0, i as int), seq![sm[i as int]]);
                lemma_dedup_single(da, sm[i as int]);
            }
            i = i + 1;
        }
        proof {
            assert(sm.subrange(0, sm.len() as int) =~= sm);
        }
        self.rows = acc;
    }

    /// Step 4 of an ingest: recompute the current-state flag of every row
    /// whose identity the batch touched.
    #[verifier::loop_isolation(false)]
    fn reconcile_phase(&mut self, batch: &FlatS3EventMessages)
        requires
            wf_table(old(self)@),
        ensures
            final(self)@ == reconcile_pass(old(self)@, batch@),
    {
        let ghost t = self@;
        let mut out: Vec<FlatS3EventMessage> = Vec::new();
        let mut i: usize = 0;
        while i < self.rows.len()
            invariant
                i <= t.len(),
                self@ == t,
                out@.len() == i,
                forall|k: int| 0 <= k < i ==> events_model(out@)[k] == reconcile_pass(t, batch@)[k],
            decreases t.len() - i,
        {
            let mut row = self.rows[i].duplicate();
            if affected_exec(batch, &self.rows[i]) {
                let flag = is_current_row_exec(&self.rows, i);
                row.is_current_state = flag;
            }
            let ghost rv = row@;
            let ghost prev = events_model(out@);
            proof {
                assert(rv == reconcile_pass(t, batch@)[i as int]);
            }
            out.push(row);
            proof {
                assert(events_model(out@) =~= prev.push(rv));
            }
            i = i + 1;
        }
        proof {
            assert(events_model(out@) =~= reconcile_pass(t, batch@));
        }
        self.rows = out;
    }

    /// Step 5 of an ingest: carry attributes over onto crawl records that
    /// have none.
    #[verifier::loop_isolation(false)]
    fn carry_phase(&mut self)
        ensures
            final(self)@ == carry_pass(old(self)@),
    {
        let ghost t = self@;
        let mut out: Vec<FlatS3EventMessage> = Vec::new();
        let mut i: usize = 0;
        while i < self.rows.len()
            invariant
                i <= t.len(),
                self@ == t,
                out@.len() == i,
                forall|k: int| 0 <= k < i ==> events_model(out@)[k] == carry_pass(t)[k],
            decreases t.len() - i,
        {
            let mut row = self.rows[i].duplicate();
            if matches!(row.reason, Reason::Crawl | Reason::CrawlRestored)
                && row.attributes.is_none() {
                match best_attr_idx(&self.rows, &self.rows[i]) {
                    Option::Some(bi) => {
                        row.attributes = crate::json::duplicate_opt_json(
                            &self.rows[bi].attributes,
                        );
                    },
                    Option::None => {},
                }
            }
            let ghost rv = row@;
            let ghost prev = events_model(out@);
            proof {
                assert(rv == carry_pass(t)[i as int]);
            }
            out.push(row);
            proof {
                assert(events_model(out@) =~= prev.push(rv));
            }
            i = i + 1;
        }
        proof {
            assert(events_model(out@) =~= carry_pass(t));
        }
        self.rows = out;
    }

    /// Ingest one batch within a transaction's snapshot: upsert, duplicate
    /// collapsing, reorder observation, crawl sequencer synthesis,
    /// current-state reconciliation and attribute carry-over.
    pub fn ingest(&mut self, batch: &FlatS3EventMessages)
        ensures
            final(self)@ == spec_ingest(old(self)@, batch@),
            final(self).wf(),
    {
        let ghost t0 = self@;
        self.upsert_phase(batch);
        self.synth_phase();
        proof {
            lemma_synth_pass_wf(upsert_all(t0, t0, batch@));
        }
        self.reconcile_phase(batch);
        self.carry_phase();
        proof {
            lemma_ingest_wf(t0, batch@);
        }
    }
}

/// Whether the `(bucket, key)` of `e` is listed in the paired arrays.
pub open spec fn identity_listed(bs: Seq<Seq<char>>, ks: Seq<Seq<char>>, e: EventModel) -> bool {
    exists|j: int|
        0 <= j < bs.len() && j < ks.len() && #[trigger] bs[j] == e.bucket && ks[j] == e.key
}

/// Whether the `(bucket, key, version_id)` of `e` is listed in the paired
/// arrays.
pub open spec fn triple_listed(
    bs: Seq<Seq<char>>,
    ks: Seq<Seq<char>>,
    vs: Seq<Seq<char>>,
    e: EventModel,
) -> bool {
    exists|j: int|
        0 <= j < bs.len() && j < ks.len() && j < vs.len() && #[trigger] bs[j] == e.bucket && ks[j]
            == e.key && vs[j] == e.version_id
}

/// The views of a vector of strings.
pub open spec fn strs_model(s: Seq<String>) -> Seq<Seq<char>> {
    Seq::new(s.len(), |i: int| s[i]@)
}

/// The table with the current-state flag cleared on every row of the listed
/// identities.
pub open spec fn reset_pass(
    t: Seq<EventModel>,
    bs: Seq<Seq<char>>,
    ks: Seq<Seq<char>>,
) -> Seq<EventModel> {
    Seq::new(
        t.len(),
        |i: int|
            if identity_listed(bs, ks, t[i]) {
                EventModel { is_current_state: false, ..t[i] }
            } else {
                t[i]
            },
    )
}

/// The rows with the listed `(bucket, key, version_id)` identities that are
/// the current state, in table order.
pub open spec fn spec_select_current(
    t: Seq<EventModel>,
    bs: Seq<Seq<char>>,
    ks: Seq<Seq<char>>,
    vs: Seq<Seq<char>>,
) -> Seq<EventModel>
    decreases t.len(),
{
    if t.len() == 0 {
        Seq::empty()
    } else {
        let rest = spec_select_current(t.drop_last(), bs, ks, vs);
        if t.last().is_current_state && triple_listed(bs, ks, vs, t.last()) {
            rest.push(t.last())
        } else {
            rest
        }
    }
}

/// All rows with the listed `(bucket, key, version_id)` identities, in table
/// order.
pub open spec fn spec_select_all(
    t: Seq<EventModel>,
    bs: Seq<Seq<char>>,
    ks: Seq<Seq<char>>,
    vs: Seq<Seq<char>>,
) -> Seq<EventModel>
    decreases t.len(),
{
    if t.len() == 0 {
        Seq::empty()
    } else {
        let rest = spec_select_all(t.drop_last(), bs, ks, vs);
        if triple_listed(bs, ks, vs, t.last()) {
            rest.push(t.last())
        } else {
            rest
        }
    }
}

/// Whether the identity of `e` is listed in the paired bucket and key
/// arrays.
fn identity_listed_exec(buckets: &Vec<String>, keys: &Vec<String>, e: &FlatS3EventMessage) -> (r:
    bool)
    ensures
        r == identity_listed(strs_model(buckets@), strs_model(keys@), e@),
{
    let mut j: usize = 0;
    #[verifier::loop_isolation(false)]
    while j < buckets.len() && j < keys.len()
        invariant
            forall|jj: int|
                0 <= jj < j ==> !(#[trigger] strs_model(buckets@)[jj] == e@.bucket && strs_model(
                    keys@,
                )[jj] == e@.key),
        decreases buckets@.len() - j,
    {
        if e.matches_identity(buckets[j].as_str(), keys[j].as_str()) {
            proof {
                assert(strs_model(buckets@)[j as int] == e@.bucket && strs_model(keys@)[j as int]
                    == e@.key);
            }
            return true;
        }
        j = j + 1;
    }
    false
}

/// Whether the version identity of `e` is listed in the paired arrays.
fn triple_listed_exec(
    buckets: &Vec<String>,
    keys: &Vec<String>,
    version_ids: &Vec<String>,
    e: &FlatS3EventMessage,
) -> (r: bool)
    ensures
        r == triple_listed(
            strs_model(buckets@),
            strs_model(keys@),
            strs_model(version_ids@),
            e@,
        ),
{
    let mut j: usize = 0;
    #[verifier::loop_isolation(false)]
    while j < buckets.len() && j < keys.len() && j < version_ids.len()
        invariant
            forall|jj: int|
                0 <= jj < j ==> !(#[trigger] strs_model(buckets@)[jj] == e@.bucket && strs_model(
                    keys@,
                )[jj] == e@.key && strs_model(version_ids@)[jj] == e@.version_id),
        decreases buckets@.len() - j,
    {
        if e.matches_identity(buckets[j].as_str(), keys[j].as_str()) && crate::text::str_eq(
            e.version_id.as_str(),
            version_ids[j].as_str(),
        ) {
            proof {
                assert(strs_model(buckets@)[j as int] == e@.bucket && strs_model(keys@)[j as int]
                    == e@.key && strs_model(version_ids@)[j as int] == e@.version_id);
            }
            return true;
        }
        j = j + 1;
    }
    false
}

impl S3ObjectTable {
    /// Clear the current-state flag for all rows of the supplied
    /// `(bucket, key)` identities, as administrative recovery does.
    #[verifier::loop_isolation(false)]
    pub fn reset_current_state(&mut self, buckets: &Vec<String>, keys: &Vec<String>)
        ensures
            final(self)@ == reset_pass(old(self)@, strs_model(buckets@), strs_model(keys@)),
            old(self).wf() ==> final(self).wf(),
    {
        let ghost t = self@;
        let ghost bs = strs_model(buckets@);
        let ghost ks = strs_model(keys@);
        let mut out: Vec<FlatS3EventMessage> = Vec::new();
        let mut i: usize = 0;
        while i < self.rows.len()
            invariant
                i <= t.len(),
                self@ == t,
                out@.len() == i,
                forall|k: int| 0 <= k < i ==> events_model(out@)[k] == reset_pass(t, bs, ks)[k],
            decreases t.len() - i,
        {
            let mut row = self.rows[i].duplicate();
            if identity_listed_exec(buckets, keys, &self.rows[i]) {
                row.is_current_state = false;
            }
            let ghost rv = row@;
            let ghost prev = events_model(out@);
            proof {
                assert(rv == reset_pass(t, bs, ks)[i as int]);
            }
            out.push(row);
            proof {
                assert(events_model(out@) =~= prev.push(rv));
            }
            i = i + 1;
        }
        proof {
            assert(events_model(out@) =~= reset_pass(t, bs, ks));
        }
        self.rows = out;
        proof {
            if wf_table(t) {
                assert forall|i: int, j: int| 0 <= i < j < self@.len() implies !same_key5(
                    self@[i],
                    self@[j],
                ) by {
                    assert(!same_key5(t[i], t[j]));
                }
            }
        }
    }

    /// The current-state rows among the supplied
    /// `(bucket, key, version_id)` identities, in table order.
    #[verifier::loop_isolation(false)]
    pub fn select_current_by_bucket_key(
        &self,
        buckets: &Vec<String>,
        keys: &Vec<String>,
        version_ids: &Vec<String>,
    ) -> (r: FlatS3EventMessages)
        ensures
            r@ == spec_select_current(
                self@,
                strs_model(buckets@),
                strs_model(keys@),
                strs_model(version_ids@),
            ),
    {
        let ghost t = self@;
        let ghost bs = strs_model(buckets@);
        let ghost ks = strs_model(keys@);
        let ghost vs = strs_model(version_ids@);
        let mut out: Vec<FlatS3EventMessage> = Vec::new();
        let mut i: usize = 0;
        while i < self.rows.len()
            invariant
                i <= t.len(),
                events_model(out@) == spec_select_current(t.subrange(0, i as int), bs, ks, vs),
            decreases t.len() - i,
        {
            proof {
                assert(t.subrange(0, i + 1).drop_last() =~= t.subrange(0, i as int));
                assert(t.subrange(0, i + 1).last() == t[i as int]);
            }
            let e = &self.rows[i];
            if e.is_current_state && triple_listed_exec(buckets, keys, version_ids, e) {
                let ghost prev = events_model(out@);
                out.push(e.duplicate());
                proof {
                    assert(events_model(out@) =~= prev.push(t[i as int]));
                }
            }
            i = i + 1;
        }
        proof {
            assert(t.subrange(0, t.len() as int) =~= t);
        }
        FlatS3EventMessages(out)
    }

    /// All rows among the supplied `(bucket, key, version_id)` identities,
    /// in table order.
    #[verifier::loop_isolation(false)]
    pub fn select_all_by_bucket_key(
        &self,
        buckets: &Vec<String>,
        keys: &Vec<String>,
        version_ids: &Vec<String>,
    ) -> (r: FlatS3EventMessages)
        ensures
            r@ == spec_select_all(
                self@,
                strs_model(buckets@),
                strs_model(keys@),
                strs_model(version_ids@),
            ),
    {
        let ghost t = self@;
        let ghost bs = strs_model(buckets@);
        let ghost ks = strs_model(keys@);
        let ghost vs = strs_model(version_ids@);
        let mut out: Vec<FlatS3EventMessage> = Vec::new();
        let mut i: usize = 0;
        while i < self.rows.len()
            invariant
                i <= t.len(),
                events_model(out@) == spec_select_all(t.subrange(0, i as int), bs, ks, vs),
            decreases t.len() - i,
        {
            proof {
                assert(t.subrange(0, i + 1).drop_last() =~= t.subrange(0, i as int));
                assert(t.subrange(0, i + 1).last() == t[i as int]);
            }
            let e = &self.rows[i];
            if triple_listed_exec(buckets, keys, version_ids, e) {
                let ghost prev = events_model(out@);
                out.push(e.duplicate());
                proof {
                    assert(events_model(out@) =~= prev.push(t[i as int]));
                }
            }
            i = i + 1;
        }
        proof {
            assert(t.subrange(0, t.len() as int) =~= t);
        }
        FlatS3EventMessages(out)
    }
}

} // verus!
