//! Laws of the reconciliation engine, stated and proved against the
//! specification of `ingest`: uniqueness of the current state, crawl
//! parity, and attribute carry-over.

use vstd::prelude::*;

use crate::event::{
    ev_ord_lt, etype_rank, is_crawl_reason, lemma_ev_ord_asym, lemma_ev_ord_connected,
    lemma_ev_ord_trans, same_identity, same_key5, same_version, EventModel, EventType,
};
use crate::table::{
    absorb_dups, affected, best_attr_row, bump_dups, carry_pass, dedup_into, find_key5,
    is_current_row, is_unsynthesized, last_of_version, lemma_find_key5_props, lemma_flag_passes_wf,
    lemma_synth_pass_wf, lemma_upsert_all_wf, prepared, reconcile_pass, spec_ingest, synth_map,
    synth_pass, synthesized_of, upsert_all, upsert_one, version_live, ver_key_lt, wf_table,
};
use crate::text::{lemma_lex_lt_asym, lemma_lex_lt_connected, lemma_lex_lt_trans,
    lemma_opt_seq_lt_asym};

verus! {

broadcast use vstd::seq_lib::group_to_multiset_ensures, vstd::multiset::group_multiset_axioms;

/// Whether a row counts towards the current rows of `(bucket, key)`.
pub open spec fn cur_mark(e: EventModel, bucket: Seq<char>, key: Seq<char>) -> int {
    if e.bucket == bucket && e.key == key && e.is_current_state {
        1
    } else {
        0
    }
}

/// The number of rows of the `(bucket, key)` identity flagged as current.
pub open spec fn count_current(t: Seq<EventModel>, bucket: Seq<char>, key: Seq<char>) -> int
    decreases t.len(),
{
    if t.len() == 0 {
        0
    } else {
        cur_mark(t[0], bucket, key) + count_current(t.skip(1), bucket, key)
    }
}

/// Counts are non-negative.
pub proof fn lemma_count_nonneg(t: Seq<EventModel>, bucket: Seq<char>, key: Seq<char>)
    ensures
        count_current(t, bucket, key) >= 0,
    decreases t.len(),
{
    if t.len() > 0 {
        lemma_count_nonneg(t.skip(1), bucket, key);
    }
}

/// Tables whose rows count pointwise alike count alike.
pub proof fn lemma_count_pointwise(
    t1: Seq<EventModel>,
    t2: Seq<EventModel>,
    bucket: Seq<char>,
    key: Seq<char>,
)
    requires
        t1.len() == t2.len(),
        forall|i: int| 0 <= i < t1.len() ==> cur_mark(#[trigger] t1[i], bucket, key) == cur_mark(
            t2[i],
            bucket,
            key,
        ),
    ensures
        count_current(t1, bucket, key) == count_current(t2, bucket, key),
    decreases t1.len(),
{
    if t1.len() > 0 {
        assert forall|i: int| 0 <= i < t1.skip(1).len() implies cur_mark(
            #[trigger] t1.skip(1)[i],
            bucket,
            key,
        ) == cur_mark(t2.skip(1)[i], bucket, key) by {
            assert(t1.skip(1)[i] == t1[i + 1]);
            assert(t2.skip(1)[i] == t2[i + 1]);
        }
        lemma_count_pointwise(t1.skip(1), t2.skip(1), bucket, key);
    }
}

/// Appending one row adds its mark.
pub proof fn lemma_count_push(
    t: Seq<EventModel>,
    e: EventModel,
    bucket: Seq<char>,
    key: Seq<char>,
)
    ensures
        count_current(t.push(e), bucket, key) == count_current(t, bucket, key) + cur_mark(
            e,
            bucket,
            key,
        ),
    decreases t.len(),
{
    if t.len() == 0 {
        assert(t.push(e)[0] == e);
        assert(t.push(e).skip(1) =~= Seq::<EventModel>::empty());
        assert(count_current(Seq::<EventModel>::empty(), bucket, key) == 0);
        assert(count_current(t, bucket, key) == 0);
        assert(count_current(t.push(e), bucket, key) == cur_mark(e, bucket, key)
            + count_current(Seq::<EventModel>::empty(), bucket, key));
    } else {
        assert(t.push(e)[0] == t[0]);
        assert(t.push(e).skip(1) =~= t.skip(1).push(e));
        lemma_count_push(t.skip(1), e, bucket, key);
        assert(count_current(t.push(e), bucket, key) == cur_mark(t[0], bucket, key)
            + count_current(t.skip(1).push(e), bucket, key));
    }
}

/// A flagged row of the identity makes the count at least one.
pub proof fn lemma_count_witness(
    t: Seq<EventModel>,
    bucket: Seq<char>,
    key: Seq<char>,
    i: int,
)
    requires
        0 <= i < t.len(),
        cur_mark(t[i], bucket, key) == 1,
    ensures
        count_current(t, bucket, key) >= 1,
    decreases t.len(),
{
    lemma_count_nonneg(t.skip(1), bucket, key);
    if i > 0 {
        assert(t.skip(1)[i - 1] == t[i]);
        lemma_count_witness(t.skip(1), bucket, key, i - 1);
    }
}

/// When no two rows are both marked, the count is at most one.
pub proof fn lemma_count_le_one(t: Seq<EventModel>, bucket: Seq<char>, key: Seq<char>)
    requires
        forall|i: int, j: int|
            0 <= i < j < t.len() ==> !(cur_mark(#[trigger] t[i], bucket, key) == 1 && cur_mark(
                #[trigger] t[j],
                bucket,
                key,
            ) == 1),
    ensures
        count_current(t, bucket, key) <= 1,
    decreases t.len(),
{
    if t.len() > 0 {
        assert forall|i: int, j: int|
            0 <= i < j < t.skip(1).len() implies !(cur_mark(
            #[trigger] t.skip(1)[i],
            bucket,
            key,
        ) == 1 && cur_mark(#[trigger] t.skip(1)[j], bucket, key) == 1) by {
            assert(t.skip(1)[i] == t[i + 1]);
            assert(t.skip(1)[j] == t[j + 1]);
        }
        lemma_count_le_one(t.skip(1), bucket, key);
        if cur_mark(t[0], bucket, key) == 1 {
            assert(count_current(t.skip(1), bucket, key) == 0) by {
                if count_current(t.skip(1), bucket, key) > 0 {
                    let w = lemma_count_pos_witness(t.skip(1), bucket, key);
                    assert(t.skip(1)[w] == t[w + 1]);
                    assert(!(cur_mark(t[0], bucket, key) == 1 && cur_mark(t[w + 1], bucket, key)
                        == 1));
                }
                lemma_count_nonneg(t.skip(1), bucket, key);
            }
        }
    }
}

/// A positive count names a marked row.
pub proof fn lemma_count_pos_witness(
    t: Seq<EventModel>,
    bucket: Seq<char>,
    key: Seq<char>,
) -> (w: int)
    requires
        count_current(t, bucket, key) > 0,
    ensures
        0 <= w < t.len(),
        cur_mark(t[w], bucket, key) == 1,
    decreases t.len(),
{
    if cur_mark(t[0], bucket, key) == 1 {
        0
    } else {
        let w = lemma_count_pos_witness(t.skip(1), bucket, key);
        assert(t.skip(1)[w] == t[w + 1]);
        w + 1
    }
}

/// An upsert of a batch that never touches the identity leaves its count
/// alone.
pub proof fn lemma_upsert_count_unaffected(
    t0: Seq<EventModel>,
    t: Seq<EventModel>,
    b: Seq<EventModel>,
    bucket: Seq<char>,
    key: Seq<char>,
)
    requires
        forall|i: int| 0 <= i < b.len() ==> !(#[trigger] b[i].bucket == bucket && b[i].key == key),
    ensures
        count_current(upsert_all(t0, t, b), bucket, key) == count_current(t, bucket, key),
    decreases b.len(),
{
    if b.len() > 0 {
        let e = b[0];
        let f = find_key5(t, e);
        lemma_find_key5_props(t, e);
        let t2 = upsert_one(t0, t, e);
        if f >= 0 {
            lemma_count_pointwise(t2, t, bucket, key);
        } else {
            lemma_count_push(t, prepared(t0, e), bucket, key);
        }
        assert forall|i: int|
            0 <= i < b.subrange(1, b.len() as int).len() implies !(#[trigger] b.subrange(
            1,
            b.len() as int,
        )[i].bucket == bucket && b.subrange(1, b.len() as int)[i].key == key) by {
            assert(b.subrange(1, b.len() as int)[i] == b[i + 1]);
        }
        lemma_upsert_count_unaffected(t0, t2, b.subrange(1, b.len() as int), bucket, key);
    }
}

/// Deduplication never raises the count above the counts of its inputs.
pub proof fn lemma_dedup_count(
    acc: Seq<EventModel>,
    s: Seq<EventModel>,
    bucket: Seq<char>,
    key: Seq<char>,
)
    ensures
        count_current(dedup_into(acc, s), bucket, key) <= count_current(acc, bucket, key)
            + count_current(s, bucket, key),
    decreases s.len(),
{
    if s.len() > 0 {
        let f = find_key5(acc, s[0]);
        let acc2 = if f >= 0 {
            acc.update(f, absorb_dups(acc[f], s[0]))
        } else {
            acc.push(s[0])
        };
        lemma_find_key5_props(acc, s[0]);
        if f >= 0 {
            lemma_count_pointwise(acc2, acc, bucket, key);
        } else {
            lemma_count_push(acc, s[0], bucket, key);
        }
        lemma_dedup_count(acc2, s.subrange(1, s.len() as int), bucket, key);
        assert(s.skip(1) =~= s.subrange(1, s.len() as int));
        lemma_count_nonneg(s.subrange(1, s.len() as int), bucket, key);
        assert(cur_mark(s[0], bucket, key) >= 0);
    }
}

/// The synthesis map changes no row mark.
pub proof fn lemma_synth_map_count(t: Seq<EventModel>, bucket: Seq<char>, key: Seq<char>)
    ensures
        count_current(synth_map(t), bucket, key) == count_current(t, bucket, key),
{
    lemma_count_pointwise(synth_map(t), t, bucket, key);
}

/// The carry-over pass changes no row mark.
pub proof fn lemma_carry_count(t: Seq<EventModel>, bucket: Seq<char>, key: Seq<char>)
    ensures
        count_current(carry_pass(t), bucket, key) == count_current(t, bucket, key),
{
    lemma_count_pointwise(carry_pass(t), t, bucket, key);
}

/// The latest event of a version is the same whichever of its rows names
/// the version.
pub proof fn lemma_last_congruent(t: Seq<EventModel>, e1: EventModel, e2: EventModel)
    requires
        same_version(e1, e2),
    ensures
        last_of_version(t, e1) == last_of_version(t, e2),
    decreases t.len(),
{
    if t.len() > 0 {
        lemma_last_congruent(t.drop_last(), e1, e2);
    }
}

/// The current-version choice order is asymmetric.
pub proof fn lemma_ver_key_asym(a: EventModel, b: EventModel)
    ensures
        ver_key_lt(a, b) ==> !ver_key_lt(b, a),
{
    lemma_ev_ord_asym(a, b);
    lemma_ev_ord_asym(b, a);
    lemma_opt_seq_lt_asym(a.sequencer, b.sequencer);
    lemma_opt_seq_lt_asym(a.sequencer, a.sequencer);
    lemma_lex_lt_asym(a.version_id, b.version_id);
    lemma_lex_lt_asym(b.version_id, a.version_id);
}

/// The current-version choice order is transitive.
pub proof fn lemma_ver_key_trans(a: EventModel, b: EventModel, c: EventModel)
    requires
        ver_key_lt(a, b),
        ver_key_lt(b, c),
    ensures
        ver_key_lt(a, c),
{
    lemma_ev_ord_trans(a, b, c);
    lemma_lex_lt_trans(a.version_id, b.version_id, c.version_id);
}

/// Latest events of distinct versions are ordered one way.
pub proof fn lemma_ver_key_connected(a: EventModel, b: EventModel)
    requires
        a.version_id != b.version_id,
    ensures
        ver_key_lt(a, b) || ver_key_lt(b, a),
{
    lemma_ev_ord_connected(a, b);
    lemma_lex_lt_connected(a.version_id, b.version_id);
}

/// Under well-formedness, at most one row of an identity is its current
/// state.
pub proof fn lemma_at_most_one_current(
    t: Seq<EventModel>,
    i: int,
    j: int,
)
    requires
        wf_table(t),
        0 <= i < j < t.len(),
        same_identity(t[i], t[j]),
    ensures
        !(is_current_row(t, t[i]) && is_current_row(t, t[j])),
{
    if is_current_row(t, t[i]) && is_current_row(t, t[j]) {
        if same_version(t[i], t[j]) {
            lemma_last_congruent(t, t[i], t[j]);
            assert(t[i] == t[j]);
            assert(same_key5(t[i], t[j]));
        } else {
            // each one's side condition applies to the other
            assert(ver_key_lt(last_of_version(t, t[j])->0, t[i]));
            assert(ver_key_lt(last_of_version(t, t[i])->0, t[j]));
            assert(last_of_version(t, t[j]) == Option::Some(t[j]));
            assert(last_of_version(t, t[i]) == Option::Some(t[i]));
            lemma_ver_key_asym(t[i], t[j]);
        }
    }
}

/// Uniqueness of current: for every `(bucket, key)`, after ingesting any
/// batch into a well-formed table that had at most one current row for the
/// identity, the table still has at most one.
pub proof fn lemma_current_state_unique(
    t: Seq<EventModel>,
    b: Seq<EventModel>,
    bucket: Seq<char>,
    key: Seq<char>,
)
    requires
        wf_table(t),
        count_current(t, bucket, key) <= 1,
    ensures
        count_current(spec_ingest(t, b), bucket, key) <= 1,
{
    let u = upsert_all(t, t, b);
    let s = synth_pass(u);
    let r = reconcile_pass(s, b);
    let c = carry_pass(r);
    lemma_synth_pass_wf(u);
    lemma_carry_count(r, bucket, key);
    if exists|i: int| 0 <= i < b.len() && #[trigger] b[i].bucket == bucket && b[i].key == key {
        // the identity is affected: reconciliation decides every flag anew
        let w = choose|i: int|
            0 <= i < b.len() && #[trigger] b[i].bucket == bucket && b[i].key == key;
        assert forall|i: int, j: int|
            0 <= i < j < r.len() implies !(cur_mark(#[trigger] r[i], bucket, key) == 1 && cur_mark(
            #[trigger] r[j],
            bucket,
            key,
        ) == 1) by {
            if cur_mark(r[i], bucket, key) == 1 && cur_mark(r[j], bucket, key) == 1 {
                assert(s[i].bucket == bucket && s[i].key == key);
                assert(s[j].bucket == bucket && s[j].key == key);
                assert(same_identity(b[w], s[i]));
                assert(affected(b, s[i]));
                assert(affected(b, s[j]));
                assert(is_current_row(s, s[i]));
                assert(is_current_row(s, s[j]));
                assert(same_identity(s[i], s[j]));
                lemma_at_most_one_current(s, i, j);
            }
        }
        lemma_count_le_one(r, bucket, key);
    } else {
        // untouched identity: nothing about its rows' flags changes
        assert forall|i: int|
            0 <= i < b.len() implies !(#[trigger] b[i].bucket == bucket && b[i].key == key) by {}
        lemma_upsert_count_unaffected(t, t, b, bucket, key);
        lemma_synth_map_count(u, bucket, key);
        lemma_dedup_count(Seq::empty(), synth_map(u), bucket, key);
        assert(count_current(Seq::empty(), bucket, key) == 0);
        lemma_count_nonneg(s, bucket, key);
        assert(count_current(s, bucket, key) <= 1);
        assert forall|i: int| 0 <= i < r.len() implies cur_mark(
            #[trigger] r[i],
            bucket,
            key,
        ) == cur_mark(s[i], bucket, key) by {
            if s[i].bucket == bucket && s[i].key == key {
                if affected(b, s[i]) {
                    let q = choose|q: int| 0 <= q < b.len() && same_identity(#[trigger] b[q], s[i]);
                    assert(b[q].bucket == bucket && b[q].key == key);
                }
                assert(r[i] == s[i]);
            }
        }
        lemma_count_pointwise(r, s, bucket, key);
    }
}

/// Whether two rows agree on everything but the duplicate counter.
pub open spec fn eq_mod_dups(a: EventModel, b: EventModel) -> bool {
    a == (EventModel { number_duplicate_events: a.number_duplicate_events, ..b })
}

/// Rows of the table keep their event type through an upsert, and so does
/// every record the batch brings.
pub proof fn lemma_upsert_all_created(t0: Seq<EventModel>, t: Seq<EventModel>, b: Seq<EventModel>)
    requires
        forall|i: int| 0 <= i < t.len() ==> (#[trigger] t[i]).event_type == EventType::Created,
        forall|i: int| 0 <= i < b.len() ==> (#[trigger] b[i]).event_type == EventType::Created,
    ensures
        forall|i: int|
            0 <= i < upsert_all(t0, t, b).len() ==> (#[trigger] upsert_all(t0, t, b)[i]).event_type
                == EventType::Created,
    decreases b.len(),
{
    if b.len() > 0 {
        let e = b[0];
        let f = find_key5(t, e);
        lemma_find_key5_props(t, e);
        let t2 = upsert_one(t0, t, e);
        assert forall|i: int| 0 <= i < t2.len() implies (#[trigger] t2[i]).event_type
            == EventType::Created by {
            if f >= 0 && i == f {
                assert(t2[i] == bump_dups(t[f]));
            }
        }
        assert forall|i: int|
            0 <= i < b.subrange(1, b.len() as int).len() implies (#[trigger] b.subrange(
            1,
            b.len() as int,
        )[i]).event_type == EventType::Created by {
            assert(b.subrange(1, b.len() as int)[i] == b[i + 1]);
        }
        lemma_upsert_all_created(t0, t2, b.subrange(1, b.len() as int));
    }
}

/// Deduplication keeps every event type.
pub proof fn lemma_dedup_all_created(acc: Seq<EventModel>, s: Seq<EventModel>)
    requires
        forall|i: int| 0 <= i < acc.len() ==> (#[trigger] acc[i]).event_type == EventType::Created,
        forall|i: int| 0 <= i < s.len() ==> (#[trigger] s[i]).event_type == EventType::Created,
    ensures
        forall|i: int|
            0 <= i < dedup_into(acc, s).len() ==> (#[trigger] dedup_into(acc, s)[i]).event_type
                == EventType::Created,
    decreases s.len(),
{
    if s.len() > 0 {
        let f = find_key5(acc, s[0]);
        lemma_find_key5_props(acc, s[0]);
        let acc2 = if f >= 0 {
            acc.update(f, absorb_dups(acc[f], s[0]))
        } else {
            acc.push(s[0])
        };
        assert forall|i: int| 0 <= i < acc2.len() implies (#[trigger] acc2[i]).event_type
            == EventType::Created by {
            if f >= 0 && i == f {
                assert(acc2[i] == absorb_dups(acc[f], s[0]));
            }
        }
        assert forall|i: int|
            0 <= i < s.subrange(1, s.len() as int).len() implies (#[trigger] s.subrange(
            1,
            s.len() as int,
        )[i]).event_type == EventType::Created by {
            assert(s.subrange(1, s.len() as int)[i] == s[i + 1]);
        }
        lemma_dedup_all_created(acc2, s.subrange(1, s.len() as int));
    }
}

/// Whether some row of the table carries the `(bucket, key)` identity.
pub open spec fn identity_present(t: Seq<EventModel>, bucket: Seq<char>, key: Seq<char>) -> bool {
    exists|i: int| 0 <= i < t.len() && (#[trigger] t[i]).bucket == bucket && t[i].key == key
}

/// An upsert keeps every identity of the table and brings every identity
/// of the batch.
pub proof fn lemma_upsert_presence(
    t0: Seq<EventModel>,
    t: Seq<EventModel>,
    b: Seq<EventModel>,
    bucket: Seq<char>,
    key: Seq<char>,
)
    requires
        identity_present(t, bucket, key) || identity_present(b, bucket, key),
    ensures
        identity_present(upsert_all(t0, t, b), bucket, key),
    decreases b.len(),
{
    if b.len() == 0 {
    } else {
        let e = b[0];
        let f = find_key5(t, e);
        lemma_find_key5_props(t, e);
        let t2 = upsert_one(t0, t, e);
        if identity_present(t, bucket, key) {
            let w = choose|i: int|
                0 <= i < t.len() && (#[trigger] t[i]).bucket == bucket && t[i].key == key;
            if f >= 0 && w == f {
                assert(t2[w] == bump_dups(t[f]));
                assert(t2[w].bucket == bucket && t2[w].key == key);
            } else {
                assert(t2[w] == t[w]);
            }
            assert(identity_present(t2, bucket, key));
            lemma_upsert_presence(t0, t2, b.subrange(1, b.len() as int), bucket, key);
        } else {
            let w = choose|i: int|
                0 <= i < b.len() && (#[trigger] b[i]).bucket == bucket && b[i].key == key;
            if w == 0 {
                if f >= 0 {
                    assert(same_key5(t[f], e));
                    assert(t2[f] == bump_dups(t[f]));
                    assert(t2[f].bucket == bucket && t2[f].key == key);
                } else {
                    assert(t2[t.len() as int] == prepared(t0, e));
                    assert(t2[t.len() as int].bucket == bucket && t2[t.len() as int].key == key);
                }
                assert(identity_present(t2, bucket, key));
                lemma_upsert_presence(t0, t2, b.subrange(1, b.len() as int), bucket, key);
            } else {
                assert(b.subrange(1, b.len() as int)[w - 1] == b[w]);
                assert(identity_present(b.subrange(1, b.len() as int), bucket, key));
                lemma_upsert_presence(t0, t2, b.subrange(1, b.len() as int), bucket, key);
            }
        }
    }
}

/// Deduplication keeps every identity.
pub proof fn lemma_dedup_presence(
    acc: Seq<EventModel>,
    s: Seq<EventModel>,
    bucket: Seq<char>,
    key: Seq<char>,
)
    requires
        identity_present(acc, bucket, key) || identity_present(s, bucket, key),
    ensures
        identity_present(dedup_into(acc, s), bucket, key),
    decreases s.len(),
{
    if s.len() == 0 {
    } else {
        let f = find_key5(acc, s[0]);
        lemma_find_key5_props(acc, s[0]);
        let acc2 = if f >= 0 {
            acc.update(f, absorb_dups(acc[f], s[0]))
        } else {
            acc.push(s[0])
        };
        if identity_present(acc, bucket, key) {
            let w = choose|i: int|
                0 <= i < acc.len() && (#[trigger] acc[i]).bucket == bucket && acc[i].key == key;
            if f >= 0 && w == f {
                assert(acc2[w] == absorb_dups(acc[f], s[0]));
            } else {
                assert(acc2[w] == acc[w]);
            }
            assert(identity_present(acc2, bucket, key));
        } else {
            let w = choose|i: int|
                0 <= i < s.len() && (#[trigger] s[i]).bucket == bucket && s[i].key == key;
            if w == 0 {
                if f >= 0 {
                    assert(same_key5(acc[f], s[0]));
                    assert(acc2[f] == absorb_dups(acc[f], s[0]));
                    assert(acc2[f].bucket == bucket && acc2[f].key == key);
                } else {
                    assert(acc2[acc.len() as int] == s[0]);
                }
                assert(identity_present(acc2, bucket, key));
            } else {
                assert(s.subrange(1, s.len() as int)[w - 1] == s[w]);
                assert(identity_present(s.subrange(1, s.len() as int), bucket, key));
            }
        }
        if identity_present(acc2, bucket, key) {
            lemma_dedup_presence(acc2, s.subrange(1, s.len() as int), bucket, key);
        } else {
            lemma_dedup_presence(acc2, s.subrange(1, s.len() as int), bucket, key);
        }
    }
}

/// Whether row `j` is its version's latest event and of the identity.
pub open spec fn is_version_head(
    t: Seq<EventModel>,
    j: int,
    bucket: Seq<char>,
    key: Seq<char>,
) -> bool {
    &&& 0 <= j < t.len()
    &&& t[j].bucket == bucket
    &&& t[j].key == key
    &&& last_of_version(t, t[j]) == Option::Some(t[j])
}

/// Among the first `n` rows, some version head of the identity dominates
/// all others in the current-version choice order.
pub proof fn lemma_max_upto(
    t: Seq<EventModel>,
    bucket: Seq<char>,
    key: Seq<char>,
    n: int,
) -> (i: int)
    requires
        wf_table(t),
        n <= t.len(),
        exists|j: int| 0 <= j < n && is_version_head(t, j, bucket, key),
    ensures
        0 <= i < n,
        is_version_head(t, i, bucket, key),
        forall|j: int|
            0 <= j < n && is_version_head(t, j, bucket, key) && j != i ==> ver_key_lt(t[j], t[i]),
    decreases n,
{
    let w = choose|j: int| 0 <= j < n && is_version_head(t, j, bucket, key);
    if is_version_head(t, n - 1, bucket, key) {
        if exists|j: int| 0 <= j < n - 1 && is_version_head(t, j, bucket, key) {
            let m = lemma_max_upto(t, bucket, key, n - 1);
            // the two heads are of distinct versions, so they are ordered
            if same_version(t[m], t[n - 1]) {
                lemma_last_congruent(t, t[m], t[n - 1]);
                assert(t[m] == t[n - 1]);
                assert(same_key5(t[m], t[n - 1]));
                assert(false);
            }
            assert(t[m].version_id != t[n - 1].version_id);
            lemma_ver_key_connected(t[m], t[n - 1]);
            if ver_key_lt(t[m], t[n - 1]) {
                assert forall|j: int|
                    0 <= j < n && is_version_head(t, j, bucket, key) && j != n - 1 implies
                    ver_key_lt(t[j], t[n - 1]) by {
                    if j != m {
                        lemma_ver_key_trans(t[j], t[m], t[n - 1]);
                    }
                }
                n - 1
            } else {
                m
            }
        } else {
            n - 1
        }
    } else {
        let m = lemma_max_upto(t, bucket, key, n - 1);
        m
    }
}

/// In a table of creation events only, an identity with any row has a row
/// that is its current state.
pub proof fn lemma_exists_current(
    t: Seq<EventModel>,
    bucket: Seq<char>,
    key: Seq<char>,
    w: int,
) -> (i: int)
    requires
        wf_table(t),
        forall|j: int| 0 <= j < t.len() ==> (#[trigger] t[j]).event_type == EventType::Created,
        0 <= w < t.len(),
        t[w].bucket == bucket,
        t[w].key == key,
    ensures
        0 <= i < t.len(),
        t[i].bucket == bucket,
        t[i].key == key,
        is_current_row(t, t[i]),
{
    crate::table::lemma_last_some(t, t[w], w);
    let m = last_of_version(t, t[w])->0;
    crate::table::lemma_last_in_table(t, t[w]);
    let lw = choose|j: int| 0 <= j < t.len() && t[j] == m && same_version(m, t[w]);
    lemma_last_congruent(t, t[lw], t[w]);
    assert(is_version_head(t, lw, bucket, key));
    let i = lemma_max_upto(t, bucket, key, t.len() as int);
    // the chosen head is live: its latest event is a creation
    assert(version_live(t, t[i]));
    // and every other live version's head orders below it
    assert forall|j: int|
        0 <= j < t.len() && same_identity(#[trigger] t[j], t[i]) && !same_version(t[j], t[i])
            && version_live(t, t[j]) implies ver_key_lt(last_of_version(t, t[j])->0, t[i]) by {
        let mj = last_of_version(t, t[j])->0;
        crate::table::lemma_last_some(t, t[j], j);
        crate::table::lemma_last_in_table(t, t[j]);
        let lj = choose|k: int| 0 <= k < t.len() && t[k] == mj && same_version(mj, t[j]);
        lemma_last_congruent(t, t[lj], t[j]);
        assert(is_version_head(t, lj, bucket, key));
        if lj == i {
            assert(same_version(t[j], t[i]));
            assert(false);
        }
        assert(ver_key_lt(t[lj], t[i]));
    }
    i
}

/// Crawl parity: a crawl-only ingest into an empty table leaves exactly
/// one current-state row for every `(bucket, key)` the listing named.
pub proof fn lemma_crawl_parity(b: Seq<EventModel>, bucket: Seq<char>, key: Seq<char>)
    requires
        forall|i: int| 0 <= i < b.len() ==> (#[trigger] b[i]).event_type == EventType::Created,
        exists|i: int| 0 <= i < b.len() && (#[trigger] b[i]).bucket == bucket && b[i].key == key,
    ensures
        count_current(spec_ingest(Seq::empty(), b), bucket, key) == 1,
{
    let t = Seq::<EventModel>::empty();
    let u = upsert_all(t, t, b);
    let s = synth_pass(u);
    let r = reconcile_pass(s, b);
    let c = carry_pass(r);
    lemma_synth_pass_wf(u);
    // every row of the final table records a creation
    lemma_upsert_all_created(t, t, b);
    let sm = synth_map(u);
    assert forall|i: int| 0 <= i < sm.len() implies (#[trigger] sm[i]).event_type
        == EventType::Created by {
        if is_unsynthesized(u[i]) {
            assert(sm[i] == synthesized_of(u, u[i]));
        }
    }
    lemma_dedup_all_created(Seq::empty(), sm);
    // the identity reaches the final table
    lemma_upsert_presence(t, t, b, bucket, key);
    let wu = choose|i: int|
        0 <= i < u.len() && (#[trigger] u[i]).bucket == bucket && u[i].key == key;
    assert(sm[wu].bucket == bucket && sm[wu].key == key) by {
        if is_unsynthesized(u[wu]) {
            assert(sm[wu] == synthesized_of(u, u[wu]));
        }
    }
    assert(identity_present(sm, bucket, key));
    lemma_dedup_presence(Seq::empty(), sm, bucket, key);
    let ws = choose|i: int|
        0 <= i < s.len() && (#[trigger] s[i]).bucket == bucket && s[i].key == key;
    // some row of the identity is current, and reconciliation flags it
    let i = lemma_exists_current(s, bucket, key, ws);
    let wb = choose|q: int|
        0 <= q < b.len() && (#[trigger] b[q]).bucket == bucket && b[q].key == key;
    assert(same_identity(b[wb], s[i]));
    assert(affected(b, s[i]));
    assert(r[i].is_current_state);
    assert(cur_mark(r[i], bucket, key) == 1);
    lemma_count_witness(r, bucket, key, i);
    // and uniqueness bounds the count by one
    assert(count_current(t, bucket, key) == 0);
    lemma_current_state_unique(t, b, bucket, key);
    lemma_carry_count(r, bucket, key);
}

/// An upsert changes existing rows only by their duplicate counter.
pub proof fn lemma_upsert_prefix(t0: Seq<EventModel>, t: Seq<EventModel>, b: Seq<EventModel>)
    ensures
        upsert_all(t0, t, b).len() >= t.len(),
        forall|i: int| 0 <= i < t.len() ==> eq_mod_dups(#[trigger] upsert_all(t0, t, b)[i], t[i]),
    decreases b.len(),
{
    if b.len() > 0 {
        let e = b[0];
        let f = find_key5(t, e);
        lemma_find_key5_props(t, e);
        let t2 = upsert_one(t0, t, e);
        assert forall|i: int| 0 <= i < t.len() implies eq_mod_dups(#[trigger] t2[i], t[i]) by {
            if f >= 0 && i == f {
                assert(t2[i] == bump_dups(t[f]));
            }
        }
        lemma_upsert_prefix(t0, t2, b.subrange(1, b.len() as int));
        assert forall|i: int| 0 <= i < t.len() implies eq_mod_dups(
            #[trigger] upsert_all(t0, t, b)[i],
            t[i],
        ) by {
            assert(eq_mod_dups(upsert_all(t0, t2, b.subrange(1, b.len() as int))[i], t2[i]));
        }
    }
}

/// Deduplication changes accumulated rows only by their duplicate counter.
pub proof fn lemma_dedup_acc_stable(acc: Seq<EventModel>, s: Seq<EventModel>)
    ensures
        dedup_into(acc, s).len() >= acc.len(),
        forall|j: int| 0 <= j < acc.len() ==> eq_mod_dups(#[trigger] dedup_into(acc, s)[j], acc[j]),
    decreases s.len(),
{
    if s.len() > 0 {
        let f = find_key5(acc, s[0]);
        lemma_find_key5_props(acc, s[0]);
        let acc2 = if f >= 0 {
            acc.update(f, absorb_dups(acc[f], s[0]))
        } else {
            acc.push(s[0])
        };
        assert forall|j: int| 0 <= j < acc.len() implies eq_mod_dups(#[trigger] acc2[j], acc[j]) by {
            if f >= 0 && j == f {
                assert(acc2[j] == absorb_dups(acc[f], s[0]));
            }
        }
        lemma_dedup_acc_stable(acc2, s.subrange(1, s.len() as int));
        assert forall|j: int| 0 <= j < acc.len() implies eq_mod_dups(
            #[trigger] dedup_into(acc, s)[j],
            acc[j],
        ) by {
            assert(eq_mod_dups(dedup_into(acc2, s.subrange(1, s.len() as int))[j], acc2[j]));
        }
    }
}

/// A record that collides with nothing before it survives deduplication,
/// changed only by its duplicate counter.
pub proof fn lemma_dedup_survivor(acc: Seq<EventModel>, s: Seq<EventModel>, idx: int)
    requires
        0 <= idx < s.len(),
        forall|j: int| 0 <= j < idx ==> !same_key5(#[trigger] s[j], s[idx]),
        forall|j: int| 0 <= j < acc.len() ==> !same_key5(#[trigger] acc[j], s[idx]),
    ensures
        exists|i: int|
            0 <= i < dedup_into(acc, s).len() && eq_mod_dups(#[trigger] dedup_into(acc, s)[i], s[idx]),
    decreases s.len(),
{
    let f = find_key5(acc, s[0]);
    lemma_find_key5_props(acc, s[0]);
    let acc2 = if f >= 0 {
        acc.update(f, absorb_dups(acc[f], s[0]))
    } else {
        acc.push(s[0])
    };
    assert(dedup_into(acc, s) == dedup_into(acc2, s.subrange(1, s.len() as int)));
    if idx == 0 {
        assert(f == -1);
        assert(acc2[acc.len() as int] == s[0]);
        lemma_dedup_acc_stable(acc2, s.subrange(1, s.len() as int));
        assert(eq_mod_dups(dedup_into(acc2, s.subrange(1, s.len() as int))[acc.len() as int], acc2[acc.len() as int]));
        assert(eq_mod_dups(dedup_into(acc, s)[acc.len() as int], s[idx]));
    } else {
        assert forall|j: int|
            0 <= j < idx - 1 implies !same_key5(#[trigger] s.subrange(1, s.len() as int)[j], s.subrange(
            1,
            s.len() as int,
        )[idx - 1]) by {
            assert(s.subrange(1, s.len() as int)[j] == s[j + 1]);
            assert(s.subrange(1, s.len() as int)[idx - 1] == s[idx]);
        }
        assert(s.subrange(1, s.len() as int)[idx - 1] == s[idx]);
        assert forall|j: int| 0 <= j < acc2.len() implies !same_key5(#[trigger] acc2[j], s[idx]) by {
            if f >= 0 && j == f {
                assert(acc2[j] == absorb_dups(acc[f], s[0]));
                assert(same_key5(acc2[j], s[idx]) == same_key5(acc[f], s[idx]));
            } else if j == acc.len() {
                assert(acc2[j] == s[0]);
                assert(!same_key5(s[0], s[idx]));
            }
        }
        lemma_dedup_survivor(acc2, s.subrange(1, s.len() as int), idx - 1);
        let i = choose|i: int|
            0 <= i < dedup_into(acc2, s.subrange(1, s.len() as int)).len() && eq_mod_dups(
                #[trigger] dedup_into(acc2, s.subrange(1, s.len() as int))[i],
                s.subrange(1, s.len() as int)[idx - 1],
            );
        assert(eq_mod_dups(dedup_into(acc, s)[i], s[idx]));
    }
}

/// The latest attributed row of a version, when there is one, carries
/// attributes and belongs to the version.
pub proof fn lemma_best_attr_props(t: Seq<EventModel>, e: EventModel)
    ensures
        best_attr_row(t, e) matches Option::Some(m) ==> m.attributes is Some && same_version(m, e),
    decreases t.len(),
{
    if t.len() > 0 {
        lemma_best_attr_props(t.drop_last(), e);
    }
}

/// A version with an attributed row has a latest attributed row.
pub proof fn lemma_best_attr_witness(t: Seq<EventModel>, e: EventModel, i: int)
    requires
        0 <= i < t.len(),
        same_version(t[i], e),
        t[i].attributes is Some,
    ensures
        best_attr_row(t, e) is Some,
    decreases t.len(),
{
    if i < t.len() - 1 {
        lemma_best_attr_witness(t.drop_last(), e, i);
    }
}

/// Attribute carry-over: once any row of a version carries attributes, a
/// re-crawl of that version leaves no crawl record of it without them.
/// The table must be well formed with no crawl record still awaiting its
/// sequencer, as every ingest leaves it; the attributed row must carry a
/// sequencer of its own.
pub proof fn lemma_attribute_carry_over(t: Seq<EventModel>, b: Seq<EventModel>, w: int)
    requires
        wf_table(t),
        forall|i: int| 0 <= i < t.len() ==> !is_unsynthesized(#[trigger] t[i]),
        0 <= w < t.len(),
        t[w].attributes is Some,
        t[w].sequencer is Some,
    ensures
        forall|i: int|
            0 <= i < spec_ingest(t, b).len() && same_version(#[trigger] spec_ingest(t, b)[i], t[w])
                && is_crawl_reason(spec_ingest(t, b)[i].reason) ==> spec_ingest(
                t,
                b,
            )[i].attributes is Some,
{
    let u = upsert_all(t, t, b);
    let s = synth_pass(u);
    let r = reconcile_pass(s, b);
    let c = carry_pass(r);
    lemma_upsert_prefix(t, t, b);
    let sm = synth_map(u);
    // the attributed row is untouched by synthesis and collides with no
    // earlier row
    assert(eq_mod_dups(u[w], t[w]));
    assert(!is_unsynthesized(u[w]));
    assert(sm[w] == u[w]);
    assert forall|j: int| 0 <= j < w implies !same_key5(#[trigger] sm[j], sm[w]) by {
        assert(eq_mod_dups(u[j], t[j]));
        assert(!is_unsynthesized(u[j]));
        assert(sm[j] == u[j]);
        assert(!same_key5(t[j], t[w]));
        assert(same_key5(u[j], u[w]) == same_key5(t[j], t[w]));
    }
    lemma_dedup_survivor(Seq::empty(), sm, w);
    let si = choose|i: int| 0 <= i < s.len() && eq_mod_dups(#[trigger] s[i], sm[w]);
    assert(s[si].attributes == t[w].attributes);
    assert(same_version(s[si], t[w]));
    // reconciliation keeps attributes and versions
    assert(r[si].attributes == s[si].attributes);
    assert(same_version(r[si], t[w]));
    assert(r.len() == s.len());
    // so the carry-over pass finds an attributed row for the version
    assert forall|i: int|
        0 <= i < c.len() && same_version(#[trigger] c[i], t[w]) && is_crawl_reason(c[i].reason)
            implies c[i].attributes is Some by {
        assert(same_version(r[i], t[w]));
        if is_crawl_reason(r[i].reason) && r[i].attributes is None {
            assert(same_version(r[si], r[i]));
            lemma_best_attr_witness(r, r[i], si);
            lemma_best_attr_props(r, r[i]);
            assert(c[i].attributes == crate::table::carried_attrs(r, r[i]));
        } else {
            assert(c[i] == r[i]);
        }
    }
}

/// Tables equal row by row, up to the duplicate counter.
pub open spec fn eq_mod_dups_table(t1: Seq<EventModel>, t2: Seq<EventModel>) -> bool {
    t1.len() == t2.len() && forall|i: int| 0 <= i < t1.len() ==> eq_mod_dups(
        #[trigger] t1[i],
        t2[i],
    )
}

/// With no crawl record awaiting a sequencer, the synthesis map changes
/// nothing.
pub proof fn lemma_synth_map_identity(t: Seq<EventModel>)
    requires
        forall|i: int| 0 <= i < t.len() ==> !is_unsynthesized(#[trigger] t[i]),
    ensures
        synth_map(t) == t,
{
    assert(synth_map(t) =~= t);
}

/// Deduplicating rows whose conflict keys are pairwise distinct changes
/// nothing.
pub proof fn lemma_dedup_distinct(acc: Seq<EventModel>, s: Seq<EventModel>)
    requires
        wf_table(acc + s),
    ensures
        dedup_into(acc, s) == acc + s,
    decreases s.len(),
{
    if s.len() == 0 {
        assert(acc + s =~= acc);
    } else {
        let f = find_key5(acc, s[0]);
        lemma_find_key5_props(acc, s[0]);
        assert(f == -1) by {
            if f >= 0 {
                assert((acc + s)[f] == acc[f]);
                assert((acc + s)[acc.len() as int] == s[0]);
                assert(!same_key5(acc[f], s[0]));
            }
        }
        assert(acc.push(s[0]) + s.subrange(1, s.len() as int) =~= acc + s);
        lemma_dedup_distinct(acc.push(s[0]), s.subrange(1, s.len() as int));
    }
}

/// On a well-formed table with no crawl record awaiting a sequencer, the
/// synthesis pass changes nothing.
pub proof fn lemma_synth_pass_identity(t: Seq<EventModel>)
    requires
        wf_table(t),
        forall|i: int| 0 <= i < t.len() ==> !is_unsynthesized(#[trigger] t[i]),
    ensures
        synth_pass(t) == t,
{
    lemma_synth_map_identity(t);
    assert(Seq::<EventModel>::empty() + t =~= t);
    lemma_dedup_distinct(Seq::empty(), t);
}

/// Whether some row of the table shares the conflict key of `e`.
pub open spec fn key5_present(t: Seq<EventModel>, e: EventModel) -> bool {
    exists|i: int| 0 <= i < t.len() && same_key5(#[trigger] t[i], e)
}

/// An upsert never loses a conflict key.
pub proof fn lemma_upsert_key5_monotone(
    t0: Seq<EventModel>,
    t: Seq<EventModel>,
    b: Seq<EventModel>,
    e: EventModel,
)
    requires
        key5_present(t, e),
    ensures
        key5_present(upsert_all(t0, t, b), e),
    decreases b.len(),
{
    if b.len() > 0 {
        let f = find_key5(t, b[0]);
        lemma_find_key5_props(t, b[0]);
        let t2 = upsert_one(t0, t, b[0]);
        let w = choose|i: int| 0 <= i < t.len() && same_key5(#[trigger] t[i], e);
        if f >= 0 && w == f {
            assert(t2[w] == bump_dups(t[f]));
            assert(same_key5(t2[w], e));
        } else {
            assert(t2[w] == t[w]);
        }
        assert(key5_present(t2, e));
        lemma_upsert_key5_monotone(t0, t2, b.subrange(1, b.len() as int), e);
    }
}

/// After an upsert, every conflict key of the batch is in the table.
pub proof fn lemma_upsert_key5_gains(
    t0: Seq<EventModel>,
    t: Seq<EventModel>,
    b: Seq<EventModel>,
    j: int,
)
    requires
        0 <= j < b.len(),
    ensures
        key5_present(upsert_all(t0, t, b), b[j]),
    decreases b.len(),
{
    let f = find_key5(t, b[0]);
    lemma_find_key5_props(t, b[0]);
    let t2 = upsert_one(t0, t, b[0]);
    if j == 0 {
        if f >= 0 {
            assert(t2[f] == bump_dups(t[f]));
            assert(same_key5(t2[f], b[0]));
        } else {
            assert(t2[t.len() as int] == prepared(t0, b[0]));
            assert(same_key5(t2[t.len() as int], b[0]));
        }
        assert(key5_present(t2, b[0]));
        lemma_upsert_key5_monotone(t0, t2, b.subrange(1, b.len() as int), b[0]);
    } else {
        assert(b.subrange(1, b.len() as int)[j - 1] == b[j]);
        lemma_upsert_key5_gains(t0, t2, b.subrange(1, b.len() as int), j - 1);
    }
}

/// An upsert whose every record already has its conflict key in the table
/// only bumps duplicate counters.
pub proof fn lemma_upsert_all_bumps(t0: Seq<EventModel>, acc: Seq<EventModel>, b: Seq<EventModel>)
    requires
        forall|j: int| 0 <= j < b.len() ==> key5_present(acc, #[trigger] b[j]),
    ensures
        eq_mod_dups_table(upsert_all(t0, acc, b), acc),
    decreases b.len(),
{
    if b.len() > 0 {
        let f = find_key5(acc, b[0]);
        lemma_find_key5_props(acc, b[0]);
        assert(f >= 0) by {
            if f == -1 {
                let w = choose|i: int| 0 <= i < acc.len() && same_key5(#[trigger] acc[i], b[0]);
                assert(!same_key5(acc[w], b[0]));
            }
        }
        let acc2 = acc.update(f, bump_dups(acc[f]));
        assert forall|j: int| 0 <= j < b.subrange(1, b.len() as int).len() implies key5_present(
            acc2,
            #[trigger] b.subrange(1, b.len() as int)[j],
        ) by {
            assert(b.subrange(1, b.len() as int)[j] == b[j + 1]);
            let w = choose|i: int| 0 <= i < acc.len() && same_key5(#[trigger] acc[i], b[j + 1]);
            if w == f {
                assert(same_key5(acc2[w], b[j + 1]));
            } else {
                assert(acc2[w] == acc[w]);
            }
        }
        lemma_upsert_all_bumps(t0, acc2, b.subrange(1, b.len() as int));
        assert forall|i: int| 0 <= i < acc.len() implies eq_mod_dups(
            #[trigger] upsert_all(t0, acc, b)[i],
            acc[i],
        ) by {
            assert(eq_mod_dups(upsert_all(t0, acc2, b.subrange(1, b.len() as int))[i], acc2[i]));
            if i == f {
                assert(eq_mod_dups(acc2[i], acc[i]));
            }
        }
    }
}

/// Whether two rows agree on the fields reconciliation reads: identity,
/// version, sequencer, event type, delete marker and provenance.
pub open spec fn core_eq(a: EventModel, b: EventModel) -> bool {
    &&& a.bucket == b.bucket
    &&& a.key == b.key
    &&& a.version_id == b.version_id
    &&& a.sequencer == b.sequencer
    &&& a.event_type == b.event_type
    &&& a.is_delete_marker == b.is_delete_marker
    &&& a.reason == b.reason
}

/// Tables that agree row by row on the fields reconciliation reads.
pub open spec fn core_eq_table(t1: Seq<EventModel>, t2: Seq<EventModel>) -> bool {
    t1.len() == t2.len() && forall|i: int| 0 <= i < t1.len() ==> core_eq(
        #[trigger] t1[i],
        t2[i],
    )
}

/// On core-equal tables, the latest event of a version is found at the
/// same position.
pub proof fn lemma_last_core(t1: Seq<EventModel>, t2: Seq<EventModel>, e1: EventModel, e2: EventModel)
    requires
        core_eq_table(t1, t2),
        core_eq(e1, e2),
    ensures
        (last_of_version(t1, e1) is None) == (last_of_version(t2, e2) is None),
        last_of_version(t1, e1) is Some ==> exists|k: int|
            0 <= k < t1.len() && last_of_version(t1, e1) == Option::Some(#[trigger] t1[k])
                && last_of_version(t2, e2) == Option::Some(t2[k]),
    decreases t1.len(),
{
    if t1.len() > 0 {
        assert(core_eq_table(t1.drop_last(), t2.drop_last())) by {
            assert forall|i: int| 0 <= i < t1.drop_last().len() implies core_eq(
                #[trigger] t1.drop_last()[i],
                t2.drop_last()[i],
            ) by {
                assert(t1.drop_last()[i] == t1[i]);
                assert(t2.drop_last()[i] == t2[i]);
            }
        }
        lemma_last_core(t1.drop_last(), t2.drop_last(), e1, e2);
        let r1 = t1.last();
        let r2 = t2.last();
        assert(core_eq(r1, r2));
        assert(same_version(r1, e1) == same_version(r2, e2));
        if same_version(r1, e1) {
            match last_of_version(t1.drop_last(), e1) {
                Option::None => {
                    assert(last_of_version(t1, e1) == Option::Some(t1[t1.len() - 1]));
                    assert(last_of_version(t2, e2) == Option::Some(t2[t2.len() - 1]));
                },
                Option::Some(m1) => {
                    let k = choose|k: int|
                        0 <= k < t1.drop_last().len() && last_of_version(t1.drop_last(), e1)
                            == Option::Some(#[trigger] t1.drop_last()[k]) && last_of_version(
                            t2.drop_last(),
                            e2,
                        ) == Option::Some(t2.drop_last()[k]);
                    assert(t1.drop_last()[k] == t1[k]);
                    assert(t2.drop_last()[k] == t2[k]);
                    assert(ev_ord_lt(t1[k], r1) == ev_ord_lt(t2[k], r2));
                    if ev_ord_lt(t1[k], r1) {
                        assert(last_of_version(t1, e1) == Option::Some(t1[t1.len() - 1]));
                        assert(last_of_version(t2, e2) == Option::Some(t2[t2.len() - 1]));
                    } else {
                        assert(last_of_version(t1, e1) == Option::Some(t1[k]));
                        assert(last_of_version(t2, e2) == Option::Some(t2[k]));
                    }
                },
            }
        } else {
            if last_of_version(t1.drop_last(), e1) is Some {
                let k = choose|k: int|
                    0 <= k < t1.drop_last().len() && last_of_version(t1.drop_last(), e1)
                        == Option::Some(#[trigger] t1.drop_last()[k]) && last_of_version(
                        t2.drop_last(),
                        e2,
                    ) == Option::Some(t2.drop_last()[k]);
                assert(t1.drop_last()[k] == t1[k]);
                assert(t2.drop_last()[k] == t2[k]);
            }
        }
    }
}

/// On core-equal tables, the live-set rule answers alike.
pub proof fn lemma_live_core(t1: Seq<EventModel>, t2: Seq<EventModel>, e1: EventModel, e2: EventModel)
    requires
        core_eq_table(t1, t2),
        core_eq(e1, e2),
    ensures
        version_live(t1, e1) == version_live(t2, e2),
{
    lemma_last_core(t1, t2, e1, e2);
    if last_of_version(t1, e1) is Some {
        let k = choose|k: int|
            0 <= k < t1.len() && last_of_version(t1, e1) == Option::Some(#[trigger] t1[k])
                && last_of_version(t2, e2) == Option::Some(t2[k]);
        assert(core_eq(t1[k], t2[k]));
    }
}

/// On well-formed, core-equal tables, reconciliation flags the same rows.
pub proof fn lemma_is_current_core(t1: Seq<EventModel>, t2: Seq<EventModel>, i: int)
    requires
        core_eq_table(t1, t2),
        wf_table(t1),
        wf_table(t2),
        0 <= i < t1.len(),
    ensures
        is_current_row(t1, t1[i]) == is_current_row(t2, t2[i]),
{
    lemma_last_core(t1, t2, t1[i], t2[i]);
    lemma_live_core(t1, t2, t1[i], t2[i]);
    // the self-is-latest condition holds on one side exactly when it holds
    // on the other, because under well-formedness it pins the position
    let self_latest_agrees: bool = {
        if last_of_version(t1, t1[i]) is Some {
            let k = choose|k: int|
                0 <= k < t1.len() && last_of_version(t1, t1[i]) == Option::Some(#[trigger] t1[k])
                    && last_of_version(t2, t2[i]) == Option::Some(t2[k]);
            if t1[k] == t1[i] && k != i {
                assert(same_key5(t1[k], t1[i]));
                assert(false);
            }
            if t2[k] == t2[i] && k != i {
                assert(same_key5(t2[k], t2[i]));
                assert(false);
            }
            assert((last_of_version(t1, t1[i]) == Option::Some(t1[i])) == (k == i));
            assert((last_of_version(t2, t2[i]) == Option::Some(t2[i])) == (k == i));
            true
        } else {
            true
        }
    };
    assert(self_latest_agrees);
    // the comparisons against other live versions agree pointwise
    if version_live(t1, t1[i]) && last_of_version(t1, t1[i]) == Option::Some(t1[i])
        && version_live(t2, t2[i]) && last_of_version(t2, t2[i]) == Option::Some(t2[i]) {
        assert forall|j: int|
            0 <= j < t1.len() && same_identity(#[trigger] t1[j], t1[i]) && !same_version(
                t1[j],
                t1[i],
            ) && version_live(t1, t1[j]) implies (same_identity(t2[j], t2[i]) && !same_version(
            t2[j],
            t2[i],
        ) && version_live(t2, t2[j]) && (ver_key_lt(last_of_version(t1, t1[j])->0, t1[i])
            == ver_key_lt(last_of_version(t2, t2[j])->0, t2[i]))) by {
            lemma_live_core(t1, t2, t1[j], t2[j]);
            lemma_last_core(t1, t2, t1[j], t2[j]);
            let k = choose|k: int|
                0 <= k < t1.len() && last_of_version(t1, t1[j]) == Option::Some(#[trigger] t1[k])
                    && last_of_version(t2, t2[j]) == Option::Some(t2[k]);
            assert(core_eq(t1[k], t2[k]));
        }
        assert forall|j: int|
            0 <= j < t2.len() && same_identity(#[trigger] t2[j], t2[i]) && !same_version(
                t2[j],
                t2[i],
            ) && version_live(t2, t2[j]) implies (same_identity(t1[j], t1[i]) && !same_version(
            t1[j],
            t1[i],
        ) && version_live(t1, t1[j]) && (ver_key_lt(last_of_version(t2, t2[j])->0, t2[i])
            == ver_key_lt(last_of_version(t1, t1[j])->0, t1[i]))) by {
            lemma_live_core(t1, t2, t1[j], t2[j]);
            lemma_last_core(t1, t2, t1[j], t2[j]);
            let k = choose|k: int|
                0 <= k < t1.len() && last_of_version(t1, t1[j]) == Option::Some(#[trigger] t1[k])
                    && last_of_version(t2, t2[j]) == Option::Some(t2[k]);
            assert(core_eq(t1[k], t2[k]));
        }
    }
}

/// An upsert of records that all carry sequencers leaves no record
/// awaiting one.
pub proof fn lemma_upsert_no_unsynth(t0: Seq<EventModel>, t: Seq<EventModel>, b: Seq<EventModel>)
    requires
        forall|i: int| 0 <= i < t.len() ==> !is_unsynthesized(#[trigger] t[i]),
        forall|j: int| 0 <= j < b.len() ==> (#[trigger] b[j]).sequencer is Some,
    ensures
        forall|i: int|
            0 <= i < upsert_all(t0, t, b).len() ==> !is_unsynthesized(
                #[trigger] upsert_all(t0, t, b)[i],
            ),
    decreases b.len(),
{
    if b.len() == 0 {
        assert(upsert_all(t0, t, b) == t);
    } else {
        let f = find_key5(t, b[0]);
        lemma_find_key5_props(t, b[0]);
        let t2 = upsert_one(t0, t, b[0]);
        assert forall|i: int| 0 <= i < t2.len() implies !is_unsynthesized(#[trigger] t2[i]) by {
            if f >= 0 && i == f {
                assert(t2[i] == bump_dups(t[f]));
            } else if f < 0 && i == t.len() {
                assert(t2[i] == prepared(t0, b[0]));
            }
        }
        assert forall|j: int|
            0 <= j < b.subrange(1, b.len() as int).len() implies (#[trigger] b.subrange(
            1,
            b.len() as int,
        )[j]).sequencer is Some by {
            assert(b.subrange(1, b.len() as int)[j] == b[j + 1]);
        }
        lemma_upsert_no_unsynth(t0, t2, b.subrange(1, b.len() as int));
        assert(upsert_all(t0, t, b) == upsert_all(t0, t2, b.subrange(1, b.len() as int)));
        assert forall|i: int|
            0 <= i < upsert_all(t0, t, b).len() implies !is_unsynthesized(
            #[trigger] upsert_all(t0, t, b)[i],
        ) by {
            assert(!is_unsynthesized(upsert_all(t0, t2, b.subrange(1, b.len() as int))[i]));
        }
    }
}

/// The latest attributed row is the same whichever of a version's rows
/// names the version.
pub proof fn lemma_best_attr_congruent(t: Seq<EventModel>, e1: EventModel, e2: EventModel)
    requires
        same_version(e1, e2),
    ensures
        best_attr_row(t, e1) == best_attr_row(t, e2),
    decreases t.len(),
{
    if t.len() > 0 {
        lemma_best_attr_congruent(t.drop_last(), e1, e2);
    }
}

/// The latest attributed row of a version, when there is one, is a row of
/// the table.
pub proof fn lemma_best_attr_in_table(t: Seq<EventModel>, e: EventModel)
    ensures
        best_attr_row(t, e) matches Option::Some(m) ==> exists|j: int|
            0 <= j < t.len() && t[j] == m,
    decreases t.len(),
{
    if t.len() > 0 {
        lemma_best_attr_in_table(t.drop_last(), e);
        if best_attr_row(t, e) is Some {
            let m = best_attr_row(t, e)->0;
            if best_attr_row(t.drop_last(), e) matches Option::Some(p) && p == m {
                let j = choose|j: int| 0 <= j < t.drop_last().len() && t.drop_last()[j] == m;
                assert(t[j] == m);
            } else {
                assert(t[t.len() - 1] == m);
            }
        }
    }
}

/// Once a table is the settled outcome of reconciling a batch, any table
/// that differs from it only in duplicate counters reconciles to it again.
pub proof fn lemma_reingest_settles(s1: Seq<EventModel>, b: Seq<EventModel>, s2: Seq<EventModel>)
    requires
        wf_table(s1),
        eq_mod_dups_table(s2, carry_pass(reconcile_pass(s1, b))),
    ensures
        eq_mod_dups_table(
            carry_pass(reconcile_pass(s2, b)),
            carry_pass(reconcile_pass(s1, b)),
        ),
{
    let r1 = reconcile_pass(s1, b);
    let c1 = carry_pass(r1);
    let r2 = reconcile_pass(s2, b);
    let c2 = carry_pass(r2);
    lemma_flag_passes_wf(s1, b);
    // the settled table agrees with its source on the core fields
    assert(c1.len() == s1.len());
    assert forall|i: int| 0 <= i < c1.len() implies core_eq(#[trigger] c1[i], s1[i]) by {}
    assert(wf_table(s2)) by {
        assert forall|i: int, j: int| 0 <= i < j < s2.len() implies !same_key5(s2[i], s2[j]) by {
            assert(eq_mod_dups(s2[i], c1[i]));
            assert(eq_mod_dups(s2[j], c1[j]));
            assert(!same_key5(c1[i], c1[j]));
        }
    }
    assert(core_eq_table(s2, s1)) by {
        assert forall|i: int| 0 <= i < s2.len() implies core_eq(#[trigger] s2[i], s1[i]) by {
            assert(eq_mod_dups(s2[i], c1[i]));
            assert(core_eq(c1[i], s1[i]));
        }
    }
    // reconciliation flags the same rows the second time
    assert forall|i: int| 0 <= i < r2.len() implies (#[trigger] r2[i]).is_current_state == c1[
        i
    ].is_current_state by {
        assert(core_eq(s2[i], s1[i]));
        assert(affected(b, s2[i]) == affected(b, s1[i])) by {
            if affected(b, s2[i]) {
                let q = choose|q: int| 0 <= q < b.len() && same_identity(#[trigger] b[q], s2[i]);
                assert(same_identity(b[q], s1[i]));
            }
            if affected(b, s1[i]) {
                let q = choose|q: int| 0 <= q < b.len() && same_identity(#[trigger] b[q], s1[i]);
                assert(same_identity(b[q], s2[i]));
            }
        }
        if affected(b, s2[i]) {
            lemma_is_current_core(s2, s1, i);
            assert(r2[i].is_current_state == is_current_row(s1, s1[i]));
            assert(r1[i].is_current_state == is_current_row(s1, s1[i]));
            assert(c1[i].is_current_state == r1[i].is_current_state);
        } else {
            assert(r2[i].is_current_state == s2[i].is_current_state);
            assert(s2[i].is_current_state == c1[i].is_current_state);
        }
    }
    // and the carry-over pass finds nothing new to fill
    assert forall|i: int| 0 <= i < c2.len() implies (#[trigger] c2[i]).attributes == c1[
        i
    ].attributes by {
        assert(eq_mod_dups(s2[i], c1[i]));
        assert(r2[i].attributes == s2[i].attributes);
        assert(s2[i].attributes == c1[i].attributes);
        assert(r2[i].reason == s2[i].reason);
        assert(core_eq(c1[i], s1[i]));
        if is_crawl_reason(r2[i].reason) && r2[i].attributes is None {
            // the first pass already found nothing for this version
            assert(c1[i].attributes is None);
            assert(is_crawl_reason(r1[i].reason));
            assert(r1[i].attributes == s1[i].attributes);
            if r1[i].attributes is Some {
                assert(c1[i].attributes == r1[i].attributes);
                assert(false);
            }
            assert(crate::table::carried_attrs(r1, r1[i]) is None);
            lemma_best_attr_props(r1, r1[i]);
            assert(best_attr_row(r1, r1[i]) is None);
            // no row of the version carries attributes in either table
            assert forall|j: int|
                0 <= j < r2.len() implies !(same_version(#[trigger] r2[j], r2[i]) && r2[
                j
            ].attributes is Some) by {
                if same_version(r2[j], r2[i]) && r2[j].attributes is Some {
                    assert(eq_mod_dups(s2[j], c1[j]));
                    assert(core_eq(c1[j], s1[j]));
                    assert(same_version(s1[j], s1[i]));
                    assert(same_version(r1[j], r1[i]));
                    assert(r2[j].attributes == c1[j].attributes);
                    if r1[j].attributes is Some {
                        lemma_best_attr_witness(r1, r1[i], j);
                    } else {
                        if is_crawl_reason(r1[j].reason) {
                            assert(c1[j].attributes == crate::table::carried_attrs(r1, r1[j]));
                            lemma_best_attr_congruent(r1, r1[j], r1[i]);
                            assert(c1[j].attributes is None);
                        } else {
                            assert(c1[j].attributes == r1[j].attributes);
                        }
                        assert(false);
                    }
                }
            }
            assert(best_attr_row(r2, r2[i]) is None) by {
                lemma_best_attr_in_table(r2, r2[i]);
                lemma_best_attr_props(r2, r2[i]);
                if best_attr_row(r2, r2[i]) is Some {
                    let m = best_attr_row(r2, r2[i])->0;
                    let j = choose|j: int| 0 <= j < r2.len() && r2[j] == m;
                    assert(!(same_version(r2[j], r2[i]) && r2[j].attributes is Some));
                }
            }
            assert(c2[i].attributes == crate::table::carried_attrs(r2, r2[i]));
            assert(c2[i].attributes is None);
        } else {
            assert(c2[i] == r2[i]);
            if r2[i].attributes is Some {
            } else {
                assert(!is_crawl_reason(r2[i].reason));
                assert(c1[i].attributes == r2[i].attributes);
            }
        }
    }
    // everything but the duplicate counters is unchanged
    assert forall|i: int| 0 <= i < c2.len() implies eq_mod_dups(#[trigger] c2[i], c1[i]) by {
        assert(eq_mod_dups(s2[i], c1[i]));
        assert(core_eq(c2[i], r2[i]));
        assert(core_eq(r2[i], s2[i]));
        assert(c2[i].is_current_state == r2[i].is_current_state);
        assert(c2[i].s3_object_id == s2[i].s3_object_id);
        assert(c2[i].number_reordered == s2[i].number_reordered);
        assert(c2[i].event_time == s2[i].event_time);
        assert(c2[i].size == s2[i].size);
        assert(c2[i].e_tag == s2[i].e_tag);
        assert(c2[i].sha256 == s2[i].sha256);
        assert(c2[i].storage_class == s2[i].storage_class);
        assert(c2[i].last_modified_date == s2[i].last_modified_date);
        assert(c2[i].archive_status == s2[i].archive_status);
        assert(c2[i].ingest_id == s2[i].ingest_id);
    }
}

/// Idempotence: ingesting the same batch of sequencer-carrying records
/// twice yields identical row contents, up to the duplicate counters. The
/// table must be well formed with no crawl record still awaiting its
/// sequencer, as every ingest leaves it.
#[verifier::rlimit(100)]
pub proof fn lemma_ingest_idempotent(t: Seq<EventModel>, b: Seq<EventModel>)
    requires
        wf_table(t),
        forall|i: int| 0 <= i < t.len() ==> !is_unsynthesized(#[trigger] t[i]),
        forall|j: int| 0 <= j < b.len() ==> (#[trigger] b[j]).sequencer is Some,
    ensures
        eq_mod_dups_table(spec_ingest(spec_ingest(t, b), b), spec_ingest(t, b)),
{
    let u1 = upsert_all(t, t, b);
    lemma_upsert_all_wf(t, t, b);
    lemma_upsert_no_unsynth(t, t, b);
    lemma_synth_pass_identity(u1);
    let r1 = reconcile_pass(u1, b);
    let c1 = carry_pass(r1);
    assert(spec_ingest(t, b) == c1);
    lemma_flag_passes_wf(u1, b);
    assert(c1.len() == u1.len());
    assert forall|i: int| 0 <= i < c1.len() implies core_eq(#[trigger] c1[i], u1[i]) by {}
    assert forall|i: int| 0 <= i < c1.len() implies !is_unsynthesized(#[trigger] c1[i]) by {
        assert(core_eq(c1[i], u1[i]));
    }
    // every conflict key of the batch is already present in it
    assert forall|j: int| 0 <= j < b.len() implies key5_present(c1, #[trigger] b[j]) by {
        lemma_upsert_key5_gains(t, t, b, j);
        let w = choose|i: int| 0 <= i < u1.len() && same_key5(#[trigger] u1[i], b[j]);
        assert(core_eq(c1[w], u1[w]));
        assert(same_key5(c1[w], b[j]));
    }
    // so the second upsert only bumps duplicate counters
    let u2 = upsert_all(c1, c1, b);
    lemma_upsert_all_bumps(c1, c1, b);
    assert(eq_mod_dups_table(u2, c1));
    assert forall|i: int| 0 <= i < u2.len() implies !is_unsynthesized(#[trigger] u2[i]) by {
        assert(eq_mod_dups(u2[i], c1[i]));
    }
    assert(wf_table(u2)) by {
        assert forall|i: int, j: int| 0 <= i < j < u2.len() implies !same_key5(u2[i], u2[j]) by {
            assert(eq_mod_dups(u2[i], c1[i]));
            assert(eq_mod_dups(u2[j], c1[j]));
            assert(!same_key5(c1[i], c1[j]));
        }
    }
    lemma_synth_pass_identity(u2);
    lemma_reingest_settles(u1, b, u2);
}

/// A row of one table is a row of any table holding the same rows.
pub proof fn lemma_contains_transfer(s1: Seq<EventModel>, s2: Seq<EventModel>, x: EventModel)
    requires
        s1.to_multiset() == s2.to_multiset(),
        s1.contains(x),
    ensures
        s2.contains(x),
{
    assert(s1.to_multiset().count(x) > 0);
    assert(s2.to_multiset().count(x) > 0);
}

/// On a well-formed table, the latest event of a version is the unique
/// matching row that every other matching row precedes.
pub proof fn lemma_last_char(s: Seq<EventModel>, e: EventModel)
    requires
        wf_table(s),
    ensures
        last_of_version(s, e) is None ==> forall|j: int|
            0 <= j < s.len() ==> !same_version(#[trigger] s[j], e),
        last_of_version(s, e) matches Option::Some(m) ==> {
            &&& s.contains(m)
            &&& same_version(m, e)
            &&& forall|j: int|
                0 <= j < s.len() && same_version(#[trigger] s[j], e) && s[j] != m ==> ev_ord_lt(
                    s[j],
                    m,
                )
        },
    decreases s.len(),
{
    if s.len() > 0 {
        assert(wf_table(s.drop_last())) by {
            assert forall|i: int, j: int|
                0 <= i < j < s.drop_last().len() implies !same_key5(
                #[trigger] s.drop_last()[i],
                #[trigger] s.drop_last()[j],
            ) by {
                assert(s.drop_last()[i] == s[i]);
                assert(s.drop_last()[j] == s[j]);
                assert(!same_key5(s[i], s[j]));
            }
        }
        lemma_last_char(s.drop_last(), e);
        let r = s.last();
        match last_of_version(s.drop_last(), e) {
            Option::None => {
                if same_version(r, e) {
                    assert(last_of_version(s, e) == Option::Some(r));
                    assert(s[s.len() - 1] == r);
                    assert(s.contains(r));
                    assert forall|j: int|
                        0 <= j < s.len() && same_version(#[trigger] s[j], e) && s[j] != r implies
                        ev_ord_lt(s[j], r) by {
                        if j < s.len() - 1 {
                            assert(s.drop_last()[j] == s[j]);
                            assert(!same_version(s.drop_last()[j], e));
                        }
                    }
                } else {
                    assert forall|j: int|
                        0 <= j < s.len() implies !same_version(#[trigger] s[j], e) by {
                        if j < s.len() - 1 {
                            assert(s.drop_last()[j] == s[j]);
                        }
                    }
                }
            },
            Option::Some(m) => {
                let k = choose|k: int| 0 <= k < s.drop_last().len() && s.drop_last()[k] == m;
                assert(s[k] == m);
                assert(s.contains(m));
                if same_version(r, e) {
                    if ev_ord_lt(m, r) {
                        assert(last_of_version(s, e) == Option::Some(r));
                        assert forall|j: int|
                            0 <= j < s.len() && same_version(#[trigger] s[j], e) && s[j] != r
                            implies ev_ord_lt(s[j], r) by {
                            if j < s.len() - 1 {
                                assert(s.drop_last()[j] == s[j]);
                                if s[j] != m {
                                    lemma_ev_ord_trans(s[j], m, r);
                                }
                            }
                        }
                    } else {
                        // the fold keeps the earlier latest; the new row
                        // must order below it, or it would share its key
                        assert(last_of_version(s, e) == Option::Some(m));
                        assert forall|j: int|
                            0 <= j < s.len() && same_version(#[trigger] s[j], e) && s[j] != m
                            implies ev_ord_lt(s[j], m) by {
                            if j == s.len() - 1 {
                                lemma_ev_ord_connected(r, m);
                                if !ev_ord_lt(r, m) {
                                    assert(r.sequencer == m.sequencer && etype_rank(r.event_type)
                                        == etype_rank(m.event_type));
                                    assert(same_version(r, m));
                                    assert(r.event_type == m.event_type) by {
                                        assert(etype_rank(r.event_type) == etype_rank(
                                            m.event_type,
                                        ));
                                    }
                                    assert(same_key5(s[k], s[s.len() - 1]));
                                    assert(false);
                                }
                            } else {
                                assert(s.drop_last()[j] == s[j]);
                            }
                        }
                    }
                } else {
                    assert(last_of_version(s, e) == Option::Some(m));
                    assert forall|j: int|
                        0 <= j < s.len() && same_version(#[trigger] s[j], e) && s[j] != m implies
                        ev_ord_lt(s[j], m) by {
                        if j < s.len() - 1 {
                            assert(s.drop_last()[j] == s[j]);
                        }
                    }
                }
            },
        }
    }
}

/// The latest event of a version depends only on which rows the table
/// holds, not on their order.
pub proof fn lemma_last_multiset(s1: Seq<EventModel>, s2: Seq<EventModel>, e: EventModel)
    requires
        wf_table(s1),
        wf_table(s2),
        s1.to_multiset() == s2.to_multiset(),
    ensures
        last_of_version(s1, e) == last_of_version(s2, e),
{
    lemma_last_char(s1, e);
    lemma_last_char(s2, e);
    match (last_of_version(s1, e), last_of_version(s2, e)) {
        (Option::None, Option::None) => {},
        (Option::Some(m1), Option::None) => {
            assert(s1.contains(m1));
            lemma_contains_transfer(s1, s2, m1);
            let j = choose|j: int| 0 <= j < s2.len() && s2[j] == m1;
            assert(!same_version(s2[j], e));
        },
        (Option::None, Option::Some(m2)) => {
            assert(s2.contains(m2));
            lemma_contains_transfer(s2, s1, m2);
            let j = choose|j: int| 0 <= j < s1.len() && s1[j] == m2;
            assert(!same_version(s1[j], e));
        },
        (Option::Some(m1), Option::Some(m2)) => {
            if m1 != m2 {
                assert(s1.contains(m1));
                assert(s2.contains(m2));
                lemma_contains_transfer(s1, s2, m1);
                lemma_contains_transfer(s2, s1, m2);
                let j1 = choose|j: int| 0 <= j < s2.len() && s2[j] == m1;
                let j2 = choose|j: int| 0 <= j < s1.len() && s1[j] == m2;
                assert(ev_ord_lt(s2[j1], m2));
                assert(ev_ord_lt(s1[j2], m1));
                lemma_ev_ord_asym(m1, m2);
            }
        },
    }
}

/// The live-set rule depends only on which rows the table holds.
pub proof fn lemma_live_multiset(s1: Seq<EventModel>, s2: Seq<EventModel>, e: EventModel)
    requires
        wf_table(s1),
        wf_table(s2),
        s1.to_multiset() == s2.to_multiset(),
    ensures
        version_live(s1, e) == version_live(s2, e),
{
    lemma_last_multiset(s1, s2, e);
}

/// Whether a row is the current state depends only on which rows the table
/// holds.
pub proof fn lemma_is_current_multiset(s1: Seq<EventModel>, s2: Seq<EventModel>, e: EventModel)
    requires
        wf_table(s1),
        wf_table(s2),
        s1.to_multiset() == s2.to_multiset(),
    ensures
        is_current_row(s1, e) == is_current_row(s2, e),
{
    lemma_last_multiset(s1, s2, e);
    lemma_live_multiset(s1, s2, e);
    if is_current_row(s1, e) {
        assert forall|j: int|
            0 <= j < s2.len() && same_identity(#[trigger] s2[j], e) && !same_version(s2[j], e)
                && version_live(s2, s2[j]) implies ver_key_lt(last_of_version(s2, s2[j])->0, e) by {
            assert(s2.contains(s2[j]));
            lemma_contains_transfer(s2, s1, s2[j]);
            let k = choose|k: int| 0 <= k < s1.len() && s1[k] == s2[j];
            lemma_live_multiset(s1, s2, s1[k]);
            lemma_last_multiset(s1, s2, s1[k]);
            assert(ver_key_lt(last_of_version(s1, s1[k])->0, e));
        }
    }
    if is_current_row(s2, e) {
        assert forall|j: int|
            0 <= j < s1.len() && same_identity(#[trigger] s1[j], e) && !same_version(s1[j], e)
                && version_live(s1, s1[j]) implies ver_key_lt(last_of_version(s1, s1[j])->0, e) by {
            assert(s1.contains(s1[j]));
            lemma_contains_transfer(s1, s2, s1[j]);
            let k = choose|k: int| 0 <= k < s2.len() && s2[k] == s1[j];
            lemma_live_multiset(s1, s2, s2[k]);
            lemma_last_multiset(s1, s2, s2[k]);
            assert(ver_key_lt(last_of_version(s2, s2[k])->0, e));
        }
    }
}

/// On a well-formed table, the latest attributed row of a version is the
/// unique attributed matching row that every other one precedes.
pub proof fn lemma_best_attr_char(s: Seq<EventModel>, e: EventModel)
    requires
        wf_table(s),
    ensures
        best_attr_row(s, e) is None ==> forall|j: int|
            0 <= j < s.len() ==> !(same_version(#[trigger] s[j], e) && s[j].attributes is Some),
        best_attr_row(s, e) matches Option::Some(m) ==> {
            &&& s.contains(m)
            &&& same_version(m, e)
            &&& m.attributes is Some
            &&& forall|j: int|
                0 <= j < s.len() && same_version(#[trigger] s[j], e) && s[j].attributes is Some
                    && s[j] != m ==> ev_ord_lt(s[j], m)
        },
    decreases s.len(),
{
    if s.len() > 0 {
        assert(wf_table(s.drop_last())) by {
            assert forall|i: int, j: int|
                0 <= i < j < s.drop_last().len() implies !same_key5(
                #[trigger] s.drop_last()[i],
                #[trigger] s.drop_last()[j],
            ) by {
                assert(s.drop_last()[i] == s[i]);
                assert(s.drop_last()[j] == s[j]);
                assert(!same_key5(s[i], s[j]));
            }
        }
        lemma_best_attr_char(s.drop_last(), e);
        let r = s.last();
        let hit = same_version(r, e) && r.attributes is Some;
        match best_attr_row(s.drop_last(), e) {
            Option::None => {
                if hit {
                    assert(best_attr_row(s, e) == Option::Some(r));
                    assert(s[s.len() - 1] == r);
                    assert(s.contains(r));
                    assert forall|j: int|
                        0 <= j < s.len() && same_version(#[trigger] s[j], e) && s[j].attributes
                            is Some && s[j] != r implies ev_ord_lt(s[j], r) by {
                        if j < s.len() - 1 {
                            assert(s.drop_last()[j] == s[j]);
                        }
                    }
                } else {
                    assert forall|j: int|
                        0 <= j < s.len() implies !(same_version(#[trigger] s[j], e) && s[
                        j
                    ].attributes is Some) by {
                        if j < s.len() - 1 {
                            assert(s.drop_last()[j] == s[j]);
                        }
                    }
                }
            },
            Option::Some(m) => {
                let k = choose|k: int| 0 <= k < s.drop_last().len() && s.drop_last()[k] == m;
                assert(s[k] == m);
                assert(s.contains(m));
                if hit {
                    if ev_ord_lt(m, r) {
                        assert(best_attr_row(s, e) == Option::Some(r));
                        assert(s.contains(r));
                        assert forall|j: int|
                            0 <= j < s.len() && same_version(#[trigger] s[j], e) && s[j].attributes
                                is Some && s[j] != r implies ev_ord_lt(s[j], r) by {
                            if j < s.len() - 1 {
                                assert(s.drop_last()[j] == s[j]);
                                if s[j] != m {
                                    lemma_ev_ord_trans(s[j], m, r);
                                }
                            }
                        }
                    } else {
                        assert(best_attr_row(s, e) == Option::Some(m));
                        assert forall|j: int|
                            0 <= j < s.len() && same_version(#[trigger] s[j], e) && s[j].attributes
                                is Some && s[j] != m implies ev_ord_lt(s[j], m) by {
                            if j == s.len() - 1 {
                                lemma_ev_ord_connected(r, m);
                                if !ev_ord_lt(r, m) {
                                    assert(r.sequencer == m.sequencer && etype_rank(r.event_type)
                                        == etype_rank(m.event_type));
                                    assert(r.event_type == m.event_type) by {
                                        assert(etype_rank(r.event_type) == etype_rank(
                                            m.event_type,
                                        ));
                                    }
                                    assert(same_key5(s[k], s[s.len() - 1]));
                                    assert(false);
                                }
                            } else {
                                assert(s.drop_last()[j] == s[j]);
                            }
                        }
                    }
                } else {
                    assert(best_attr_row(s, e) == Option::Some(m));
                    assert forall|j: int|
                        0 <= j < s.len() && same_version(#[trigger] s[j], e) && s[j].attributes
                            is Some && s[j] != m implies ev_ord_lt(s[j], m) by {
                        if j < s.len() - 1 {
                            assert(s.drop_last()[j] == s[j]);
                        }
                    }
                }
            },
        }
    }
}

/// The attributes carried onto a crawl record depend only on which rows
/// the table holds.
pub proof fn lemma_best_attr_multiset(s1: Seq<EventModel>, s2: Seq<EventModel>, e: EventModel)
    requires
        wf_table(s1),
        wf_table(s2),
        s1.to_multiset() == s2.to_multiset(),
    ensures
        best_attr_row(s1, e) == best_attr_row(s2, e),
{
    lemma_best_attr_char(s1, e);
    lemma_best_attr_char(s2, e);
    match (best_attr_row(s1, e), best_attr_row(s2, e)) {
        (Option::None, Option::None) => {},
        (Option::Some(m1), Option::None) => {
            assert(s1.contains(m1));
            lemma_contains_transfer(s1, s2, m1);
            let j = choose|j: int| 0 <= j < s2.len() && s2[j] == m1;
            assert(!(same_version(s2[j], e) && s2[j].attributes is Some));
        },
        (Option::None, Option::Some(m2)) => {
            assert(s2.contains(m2));
            lemma_contains_transfer(s2, s1, m2);
            let j = choose|j: int| 0 <= j < s1.len() && s1[j] == m2;
            assert(!(same_version(s1[j], e) && s1[j].attributes is Some));
        },
        (Option::Some(m1), Option::Some(m2)) => {
            if m1 != m2 {
                assert(s1.contains(m1));
                assert(s2.contains(m2));
                lemma_contains_transfer(s1, s2, m1);
                lemma_contains_transfer(s2, s1, m2);
                let j1 = choose|j: int| 0 <= j < s2.len() && s2[j] == m1;
                let j2 = choose|j: int| 0 <= j < s1.len() && s1[j] == m2;
                assert(ev_ord_lt(s2[j1], m2));
                assert(ev_ord_lt(s1[j2], m1));
                lemma_ev_ord_asym(m1, m2);
            }
        },
    }
}

/// Whether some record of the batch shares the conflict key of `e`.
pub open spec fn key5_in_batch(b: Seq<EventModel>, e: EventModel) -> bool {
    exists|j: int| 0 <= j < b.len() && same_key5(#[trigger] b[j], e)
}

/// The table with each row's duplicate counter bumped when the batch
/// carries its conflict key.
pub open spec fn bumped_rows(t: Seq<EventModel>, b: Seq<EventModel>) -> Seq<EventModel> {
    Seq::new(
        t.len(),
        |i: int|
            if key5_in_batch(b, t[i]) {
                bump_dups(t[i])
            } else {
                t[i]
            },
    )
}

/// The prepared batch records whose conflict key is not in `tkeys`, in
/// batch order.
pub open spec fn fresh_rows(
    tkeys: Seq<EventModel>,
    t0: Seq<EventModel>,
    b: Seq<EventModel>,
) -> Seq<EventModel>
    decreases b.len(),
{
    if b.len() == 0 {
        Seq::empty()
    } else {
        let rest = fresh_rows(tkeys, t0, b.subrange(1, b.len() as int));
        if key5_present(tkeys, b[0]) {
            rest
        } else {
            seq![prepared(t0, b[0])] + rest
        }
    }
}

/// The first match in a concatenation is the first match of either part.
pub proof fn lemma_find_key5_concat(a: Seq<EventModel>, c: Seq<EventModel>, e: EventModel)
    ensures
        find_key5(a, e) >= 0 ==> find_key5(a + c, e) == find_key5(a, e),
        find_key5(a, e) == -1 && find_key5(c, e) >= 0 ==> find_key5(a + c, e) == a.len()
            + find_key5(c, e),
        find_key5(a, e) == -1 && find_key5(c, e) == -1 ==> find_key5(a + c, e) == -1,
    decreases a.len(),
{
    if a.len() == 0 {
        assert(a + c =~= c);
        assert(find_key5(a, e) == -1);
        assert(find_key5(a + c, e) == find_key5(c, e));
    } else {
        assert((a + c).len() == a.len() + c.len());
        assert((a + c)[0] == a[0]);
        if same_key5(a[0], e) {
            assert(find_key5(a, e) == 0);
            assert(find_key5(a + c, e) == 0);
        } else {
            assert((a + c).skip(1) =~= a.skip(1) + c);
            lemma_find_key5_concat(a.skip(1), c, e);
            lemma_find_key5_props(a.skip(1), e);
            lemma_find_key5_props(a.skip(1) + c, e);
            lemma_find_key5_props(c, e);
            assert(find_key5(a + c, e) == (if find_key5(a.skip(1) + c, e) == -1 {
                -1int
            } else {
                find_key5(a.skip(1) + c, e) + 1
            }));
            assert(find_key5(a, e) == (if find_key5(a.skip(1), e) == -1 {
                -1int
            } else {
                find_key5(a.skip(1), e) + 1
            }));
            assert(a.skip(1).len() == a.len() - 1);
            assert(find_key5(a, e) == -1 && find_key5(c, e) >= 0 ==> find_key5(a + c, e)
                == a.len() + find_key5(c, e));
            assert(find_key5(a, e) == -1 && find_key5(c, e) == -1 ==> find_key5(a + c, e) == -1);
        }
    }
}

/// Tables with pointwise-equal conflict keys present the same keys.
pub open spec fn same_key5_table(t1: Seq<EventModel>, t2: Seq<EventModel>) -> bool {
    t1.len() == t2.len() && forall|i: int| 0 <= i < t1.len() ==> same_key5(
        #[trigger] t1[i],
        t2[i],
    )
}

/// An upsert of a batch with pairwise-distinct conflict keys bumps the
/// matched rows once each and appends the prepared unmatched records.
pub proof fn lemma_upsert_decompose(
    t0: Seq<EventModel>,
    tkeys: Seq<EventModel>,
    t: Seq<EventModel>,
    extra: Seq<EventModel>,
    b: Seq<EventModel>,
)
    requires
        wf_table(t),
        wf_table(b),
        same_key5_table(t, tkeys),
        forall|j: int, x: int|
            0 <= j < b.len() && 0 <= x < extra.len() ==> !same_key5(
                #[trigger] b[j],
                #[trigger] extra[x],
            ),
    ensures
        upsert_all(t0, t + extra, b) == bumped_rows(t, b) + extra + fresh_rows(tkeys, t0, b),
    decreases b.len(),
{
    if b.len() == 0 {
        assert(bumped_rows(t, b) =~= t);
        assert(bumped_rows(t, b) + extra + fresh_rows(tkeys, t0, b) =~= t + extra);
    } else {
        let e = b[0];
        let rest = b.subrange(1, b.len() as int);
        assert(wf_table(rest)) by {
            assert forall|i: int, j: int|
                0 <= i < j < rest.len() implies !same_key5(
                #[trigger] rest[i],
                #[trigger] rest[j],
            ) by {
                assert(rest[i] == b[i + 1]);
                assert(rest[j] == b[j + 1]);
                assert(!same_key5(b[i + 1], b[j + 1]));
            }
        }
        lemma_find_key5_props(t, e);
        lemma_find_key5_props(extra, e);
        lemma_find_key5_props(t + extra, e);
        lemma_find_key5_concat(t, extra, e);
        let f = find_key5(t, e);
        assert(find_key5(extra, e) == -1) by {
            if find_key5(extra, e) >= 0 {
                assert(same_key5(extra[find_key5(extra, e)], e));
                assert(!same_key5(b[0], extra[find_key5(extra, e)]));
            }
        }
        if f >= 0 {
            // the matched row is bumped in place
            assert(key5_present(tkeys, e)) by {
                assert(same_key5(tkeys[f], t[f]));
                assert(same_key5(tkeys[f], e));
            }
            assert(find_key5(t + extra, e) == f);
            assert((t + extra)[f] == t[f]);
            let t2 = t.update(f, bump_dups(t[f]));
            assert((t + extra).update(f, bump_dups(t[f])) =~= t2 + extra);
            assert(upsert_all(t0, t + extra, b) == upsert_all(t0, t2 + extra, rest));
            assert(wf_table(t2)) by {
                crate::table::lemma_key5_stable(t[f], t[f]);
                assert forall|i: int, j: int|
                    0 <= i < j < t2.len() implies !same_key5(#[trigger] t2[i], #[trigger] t2[j]) by {
                    crate::table::lemma_key5_stable(t[f], t[i]);
                    crate::table::lemma_key5_stable(t[f], t[j]);
                    assert(!same_key5(t[i], t[j]));
                }
            }
            assert(same_key5_table(t2, tkeys)) by {
                assert forall|i: int| 0 <= i < t2.len() implies same_key5(
                    #[trigger] t2[i],
                    tkeys[i],
                ) by {
                    crate::table::lemma_key5_stable(t[f], tkeys[i]);
                    assert(same_key5(t[i], tkeys[i]));
                }
            }
            assert forall|j: int, x: int|
                0 <= j < rest.len() && 0 <= x < extra.len() implies !same_key5(
                #[trigger] rest[j],
                #[trigger] extra[x],
            ) by {
                assert(rest[j] == b[j + 1]);
                assert(!same_key5(b[j + 1], extra[x]));
            }
            lemma_upsert_decompose(t0, tkeys, t2, extra, rest);
            // the bumped table continues as if the head were never seen
            assert(bumped_rows(t2, rest) =~= bumped_rows(t, b)) by {
                assert forall|i: int| 0 <= i < t.len() implies bumped_rows(t2, rest)[i]
                    == bumped_rows(t, b)[i] by {
                    if i == f {
                        assert(key5_in_batch(b, t[f]));
                        assert(!key5_in_batch(rest, t2[f])) by {
                            if key5_in_batch(rest, t2[f]) {
                                let j = choose|j: int|
                                    0 <= j < rest.len() && same_key5(#[trigger] rest[j], t2[f]);
                                assert(rest[j] == b[j + 1]);
                                crate::table::lemma_key5_stable(t[f], b[j + 1]);
                                assert(same_key5(b[j + 1], t[f]));
                                assert(same_key5(t[f], e));
                                assert(same_key5(b[j + 1], b[0]));
                                assert(!same_key5(b[0], b[j + 1]));
                            }
                        }
                        assert(bumped_rows(t2, rest)[i] == t2[f]);
                    } else {
                        assert(t2[i] == t[i]);
                        assert(key5_in_batch(rest, t[i]) == key5_in_batch(b, t[i])) by {
                            if key5_in_batch(rest, t[i]) {
                                let j = choose|j: int|
                                    0 <= j < rest.len() && same_key5(#[trigger] rest[j], t[i]);
                                assert(rest[j] == b[j + 1]);
                                assert(same_key5(b[j + 1], t[i]));
                            }
                            if key5_in_batch(b, t[i]) {
                                let j = choose|j: int|
                                    0 <= j < b.len() && same_key5(#[trigger] b[j], t[i]);
                                if j == 0 {
                                    // the head matches row f alone
                                    assert(same_key5(t[i], e));
                                    assert(same_key5(t[f], e));
                                    assert(same_key5(t[i], t[f]));
                                    if i < f {
                                        assert(!same_key5(t[i], t[f]));
                                    } else {
                                        assert(!same_key5(t[f], t[i]));
                                    }
                                } else {
                                    assert(rest[j - 1] == b[j]);
                                    assert(same_key5(rest[j - 1], t[i]));
                                }
                            }
                        }
                    }
                }
            }
            assert(fresh_rows(tkeys, t0, b) == fresh_rows(tkeys, t0, rest));
        } else {
            // the head is fresh and is appended after everything so far
            assert(!key5_present(tkeys, e)) by {
                if key5_present(tkeys, e) {
                    let i = choose|i: int|
                        0 <= i < tkeys.len() && same_key5(#[trigger] tkeys[i], e);
                    assert(same_key5(t[i], tkeys[i]));
                    assert(same_key5(t[i], e));
                }
            }
            assert(find_key5(t + extra, e) == -1);
            let p = prepared(t0, e);
            assert((t + extra).push(p) =~= t + (extra + seq![p]));
            assert(upsert_all(t0, t + extra, b) == upsert_all(t0, t + (extra + seq![p]), rest));
            assert forall|j: int, x: int|
                0 <= j < rest.len() && 0 <= x < (extra + seq![p]).len() implies !same_key5(
                #[trigger] rest[j],
                #[trigger] (extra + seq![p])[x],
            ) by {
                assert(rest[j] == b[j + 1]);
                if x < extra.len() {
                    assert((extra + seq![p])[x] == extra[x]);
                    assert(!same_key5(b[j + 1], extra[x]));
                } else {
                    assert((extra + seq![p])[x] == p);
                    crate::table::lemma_key5_stable(e, b[j + 1]);
                    assert(same_key5(p, b[j + 1]) == same_key5(e, b[j + 1]));
                    assert(!same_key5(b[0], b[j + 1]));
                    if same_key5(b[j + 1], p) {
                        assert(same_key5(p, b[j + 1]));
                    }
                }
            }
            lemma_upsert_decompose(t0, tkeys, t, extra + seq![p], rest);
            assert(bumped_rows(t, rest) =~= bumped_rows(t, b)) by {
                assert forall|i: int| 0 <= i < t.len() implies bumped_rows(t, rest)[i]
                    == bumped_rows(t, b)[i] by {
                    assert(key5_in_batch(rest, t[i]) == key5_in_batch(b, t[i])) by {
                        if key5_in_batch(rest, t[i]) {
                            let j = choose|j: int|
                                0 <= j < rest.len() && same_key5(#[trigger] rest[j], t[i]);
                            assert(rest[j] == b[j + 1]);
                            assert(same_key5(b[j + 1], t[i]));
                        }
                        if key5_in_batch(b, t[i]) {
                            let j = choose|j: int|
                                0 <= j < b.len() && same_key5(#[trigger] b[j], t[i]);
                            if j == 0 {
                                assert(same_key5(b[0], t[i]));
                                lemma_find_key5_props(t, e);
                                assert(!same_key5(t[i], e));
                                assert(same_key5(e, t[i]));
                            } else {
                                assert(rest[j - 1] == b[j]);
                                assert(same_key5(rest[j - 1], t[i]));
                            }
                        }
                    }
                }
            }
            assert(fresh_rows(tkeys, t0, b) == seq![p] + fresh_rows(tkeys, t0, rest));
            assert(bumped_rows(t, b) + (extra + seq![p]) + fresh_rows(tkeys, t0, rest)
                =~= bumped_rows(t, b) + extra + (seq![p] + fresh_rows(tkeys, t0, rest)));
        }
    }
}

/// Mapping commutes with removing one element, on multisets.
pub proof fn lemma_map_remove(s: Seq<EventModel>, k: int, f: spec_fn(EventModel) -> EventModel)
    requires
        0 <= k < s.len(),
    ensures
        s.map_values(f).to_multiset() == s.remove(k).map_values(f).to_multiset().insert(f(s[k])),
{
    let mapped = s.map_values(f);
    assert(s.remove(k).map_values(f) =~= mapped.remove(k));
    assert(mapped.remove(k).to_multiset() =~= mapped.to_multiset().remove(mapped[k]));
    assert(mapped[k] == f(s[k]));
    assert(mapped.contains(mapped[k]));
    assert(mapped.to_multiset().count(mapped[k]) > 0);
    assert(mapped.to_multiset().remove(mapped[k]).insert(mapped[k]) =~= mapped.to_multiset());
}

/// Mapping tables that hold the same rows yields the same rows.
pub proof fn lemma_map_perm(
    s1: Seq<EventModel>,
    s2: Seq<EventModel>,
    f: spec_fn(EventModel) -> EventModel,
)
    requires
        s1.to_multiset() == s2.to_multiset(),
    ensures
        s1.map_values(f).to_multiset() == s2.map_values(f).to_multiset(),
    decreases s1.len(),
{
    assert(s1.len() == s1.to_multiset().len());
    assert(s2.len() == s2.to_multiset().len());
    if s1.len() == 0 {
        assert(s1.map_values(f) =~= Seq::<EventModel>::empty());
        assert(s2.map_values(f) =~= Seq::<EventModel>::empty());
    } else {
        let e = s1[0];
        assert(s1.contains(e));
        lemma_contains_transfer(s1, s2, e);
        let k = choose|k: int| 0 <= k < s2.len() && s2[k] == e;
        let s1r = s1.remove(0);
        let s2r = s2.remove(k);
        assert(s1r.to_multiset() =~= s1.to_multiset().remove(e));
        assert(s2r.to_multiset() =~= s2.to_multiset().remove(e));
        lemma_map_perm(s1r, s2r, f);
        lemma_map_remove(s1, 0, f);
        lemma_map_remove(s2, k, f);
    }
}

/// Removing one batch record removes exactly its contribution to the
/// fresh rows.
pub proof fn lemma_fresh_remove(
    tkeys: Seq<EventModel>,
    t0: Seq<EventModel>,
    s: Seq<EventModel>,
    k: int,
)
    requires
        0 <= k < s.len(),
    ensures
        fresh_rows(tkeys, t0, s).to_multiset() == (if key5_present(tkeys, s[k]) {
            fresh_rows(tkeys, t0, s.remove(k)).to_multiset()
        } else {
            fresh_rows(tkeys, t0, s.remove(k)).to_multiset().insert(prepared(t0, s[k]))
        }),
    decreases s.len(),
{
    broadcast use vstd::seq_lib::lemma_multiset_commutative;

    let sub = s.subrange(1, s.len() as int);
    if k == 0 {
        assert(s.remove(0) =~= sub);
        if !key5_present(tkeys, s[0]) {
            assert(fresh_rows(tkeys, t0, s) == seq![prepared(t0, s[0])] + fresh_rows(
                tkeys,
                t0,
                sub,
            ));
            assert((seq![prepared(t0, s[0])] + fresh_rows(tkeys, t0, sub)).to_multiset()
                =~= fresh_rows(tkeys, t0, sub).to_multiset().insert(prepared(t0, s[0]))) by {
                assert(seq![prepared(t0, s[0])].to_multiset() =~= vstd::multiset::Multiset::<
                    EventModel,
                >::empty().insert(prepared(t0, s[0]))) by {
                    assert(seq![prepared(t0, s[0])] =~= Seq::<EventModel>::empty().push(
                        prepared(t0, s[0]),
                    ));
                }
            }
        }
    } else {
        assert(s.remove(k)[0] == s[0]);
        assert(s.remove(k).subrange(1, s.remove(k).len() as int) =~= sub.remove(k - 1));
        assert(sub[k - 1] == s[k]);
        lemma_fresh_remove(tkeys, t0, sub, k - 1);
        if key5_present(tkeys, s[0]) {
            assert(fresh_rows(tkeys, t0, s) == fresh_rows(tkeys, t0, sub));
            assert(fresh_rows(tkeys, t0, s.remove(k)) == fresh_rows(tkeys, t0, sub.remove(k - 1)));
        } else {
            assert(fresh_rows(tkeys, t0, s) == seq![prepared(t0, s[0])] + fresh_rows(
                tkeys,
                t0,
                sub,
            ));
            assert(fresh_rows(tkeys, t0, s.remove(k)) == seq![prepared(t0, s[0])] + fresh_rows(
                tkeys,
                t0,
                sub.remove(k - 1),
            ));
            let p0 = prepared(t0, s[0]);
            let pk = prepared(t0, s[k]);
            assert(seq![p0].to_multiset() =~= vstd::multiset::Multiset::<EventModel>::empty().insert(p0)) by {
                assert(seq![p0] =~= Seq::<EventModel>::empty().push(p0));
            }
            if key5_present(tkeys, s[k]) {
            } else {
                assert((seq![p0] + fresh_rows(tkeys, t0, sub)).to_multiset() =~= (seq![p0]
                    + fresh_rows(tkeys, t0, sub.remove(k - 1))).to_multiset().insert(pk));
            }
        }
    }
}

/// The fresh rows of batches holding the same records hold the same rows.
pub proof fn lemma_fresh_perm(
    tkeys: Seq<EventModel>,
    t0: Seq<EventModel>,
    b1: Seq<EventModel>,
    b2: Seq<EventModel>,
)
    requires
        b1.to_multiset() == b2.to_multiset(),
    ensures
        fresh_rows(tkeys, t0, b1).to_multiset() == fresh_rows(tkeys, t0, b2).to_multiset(),
    decreases b1.len(),
{
    assert(b1.len() == b1.to_multiset().len());
    assert(b2.len() == b2.to_multiset().len());
    if b1.len() > 0 {
        let e = b1[0];
        assert(b1.contains(e));
        lemma_contains_transfer(b1, b2, e);
        let k = choose|k: int| 0 <= k < b2.len() && b2[k] == e;
        let rest1 = b1.remove(0);
        let rest2 = b2.remove(k);
        assert(rest1.to_multiset() =~= b1.to_multiset().remove(e));
        assert(rest2.to_multiset() =~= b2.to_multiset().remove(e));
        lemma_fresh_perm(tkeys, t0, rest1, rest2);
        lemma_fresh_remove(tkeys, t0, b1, 0);
        lemma_fresh_remove(tkeys, t0, b2, k);
    }
}

/// Order-independence: batches holding the same records leave tables
/// holding the same rows, whatever order the records arrived in. As the
/// normalizer guarantees, the batches' conflict keys are pairwise distinct
/// and every record carries a sequencer; the table is well formed with no
/// crawl record still awaiting its sequencer, as every ingest leaves it.
pub proof fn lemma_ingest_order_independent(
    t: Seq<EventModel>,
    b1: Seq<EventModel>,
    b2: Seq<EventModel>,
)
    requires
        wf_table(t),
        forall|i: int| 0 <= i < t.len() ==> !is_unsynthesized(#[trigger] t[i]),
        wf_table(b1),
        wf_table(b2),
        forall|j: int| 0 <= j < b1.len() ==> (#[trigger] b1[j]).sequencer is Some,
        forall|j: int| 0 <= j < b2.len() ==> (#[trigger] b2[j]).sequencer is Some,
        b1.to_multiset() == b2.to_multiset(),
    ensures
        spec_ingest(t, b1).to_multiset() == spec_ingest(t, b2).to_multiset(),
{
    broadcast use vstd::seq_lib::lemma_multiset_commutative;

    let u1 = upsert_all(t, t, b1);
    let u2 = upsert_all(t, t, b2);
    // both upserts decompose into common bumps plus fresh appended rows
    assert(t + Seq::<EventModel>::empty() =~= t);
    assert(same_key5_table(t, t));
    lemma_upsert_decompose(t, t, t, Seq::empty(), b1);
    lemma_upsert_decompose(t, t, t, Seq::empty(), b2);
    let fresh1 = fresh_rows(t, t, b1);
    let fresh2 = fresh_rows(t, t, b2);
    assert(u1 == bumped_rows(t, b1) + Seq::<EventModel>::empty() + fresh1);
    assert(u2 == bumped_rows(t, b2) + Seq::<EventModel>::empty() + fresh2);
    assert(bumped_rows(t, b1) =~= bumped_rows(t, b2)) by {
        assert forall|i: int| 0 <= i < t.len() implies key5_in_batch(b1, t[i]) == key5_in_batch(
            b2,
            t[i],
        ) by {
            if key5_in_batch(b1, t[i]) {
                let j = choose|j: int| 0 <= j < b1.len() && same_key5(#[trigger] b1[j], t[i]);
                assert(b1.contains(b1[j]));
                lemma_contains_transfer(b1, b2, b1[j]);
                let k = choose|k: int| 0 <= k < b2.len() && b2[k] == b1[j];
                assert(same_key5(b2[k], t[i]));
            }
            if key5_in_batch(b2, t[i]) {
                let j = choose|j: int| 0 <= j < b2.len() && same_key5(#[trigger] b2[j], t[i]);
                assert(b2.contains(b2[j]));
                lemma_contains_transfer(b2, b1, b2[j]);
                let k = choose|k: int| 0 <= k < b1.len() && b1[k] == b2[j];
                assert(same_key5(b1[k], t[i]));
            }
        }
    }
    let bm = bumped_rows(t, b1);
    assert(bm + Seq::<EventModel>::empty() =~= bm);
    assert(u1 == bm + fresh1);
    assert(u2 == bm + fresh2);
    lemma_fresh_perm(t, t, b1, b2);
    assert(u1.to_multiset() =~= u2.to_multiset()) by {
        assert((bm + fresh1).to_multiset() =~= bm.to_multiset().add(fresh1.to_multiset()));
        assert((bm + fresh2).to_multiset() =~= bm.to_multiset().add(fresh2.to_multiset()));
    }
    lemma_upsert_all_wf(t, t, b1);
    lemma_upsert_all_wf(t, t, b2);
    lemma_upsert_no_unsynth(t, t, b1);
    lemma_upsert_no_unsynth(t, t, b2);
    lemma_synth_pass_identity(u1);
    lemma_synth_pass_identity(u2);
    // reconciliation is the same per-row function on both tables
    let f: spec_fn(EventModel) -> EventModel = |row: EventModel|
        if affected(b1, row) {
            EventModel { is_current_state: is_current_row(u1, row), ..row }
        } else {
            row
        };
    let r1 = reconcile_pass(u1, b1);
    let r2 = reconcile_pass(u2, b2);
    assert(r1 =~= u1.map_values(f));
    assert(r2 =~= u2.map_values(f)) by {
        assert forall|i: int| 0 <= i < u2.len() implies r2[i] == f(u2[i]) by {
            assert(affected(b2, u2[i]) == affected(b1, u2[i])) by {
                if affected(b2, u2[i]) {
                    let q = choose|q: int|
                        0 <= q < b2.len() && same_identity(#[trigger] b2[q], u2[i]);
                    assert(b2.contains(b2[q]));
                    lemma_contains_transfer(b2, b1, b2[q]);
                    let k = choose|k: int| 0 <= k < b1.len() && b1[k] == b2[q];
                    assert(same_identity(b1[k], u2[i]));
                }
                if affected(b1, u2[i]) {
                    let q = choose|q: int|
                        0 <= q < b1.len() && same_identity(#[trigger] b1[q], u2[i]);
                    assert(b1.contains(b1[q]));
                    lemma_contains_transfer(b1, b2, b1[q]);
                    let k = choose|k: int| 0 <= k < b2.len() && b2[k] == b1[q];
                    assert(same_identity(b2[k], u2[i]));
                }
            }
            if affected(b2, u2[i]) {
                lemma_is_current_multiset(u2, u1, u2[i]);
            }
        }
    }
    lemma_map_perm(u1, u2, f);
    assert(r1.to_multiset() == r2.to_multiset());
    lemma_flag_passes_wf(u1, b1);
    lemma_flag_passes_wf(u2, b2);
    // and so is the carry-over
    let g: spec_fn(EventModel) -> EventModel = |row: EventModel|
        if is_crawl_reason(row.reason) && row.attributes is None {
            EventModel { attributes: crate::table::carried_attrs(r1, row), ..row }
        } else {
            row
        };
    let c1 = carry_pass(r1);
    let c2 = carry_pass(r2);
    assert(c1 =~= r1.map_values(g));
    assert(c2 =~= r2.map_values(g)) by {
        assert forall|i: int| 0 <= i < r2.len() implies c2[i] == g(r2[i]) by {
            if is_crawl_reason(r2[i].reason) && r2[i].attributes is None {
                lemma_best_attr_multiset(r2, r1, r2[i]);
            }
        }
    }
    lemma_map_perm(r1, r2, g);
    assert(spec_ingest(t, b1) == c1);
    assert(spec_ingest(t, b2) == c2);
}

/// A record without a sequencer overtakes nothing.
pub proof fn lemma_reorder_null(t0: Seq<EventModel>, e: EventModel)
    requires
        e.sequencer is None,
    ensures
        crate::table::reorder_count(t0, e) == 0,
    decreases t0.len(),
{
    if t0.len() > 0 {
        lemma_reorder_null(t0.drop_last(), e);
    }
}

/// Crawl-originated rows never contribute to a synthesized base.
pub proof fn lemma_synth_base_split(a: Seq<EventModel>, c: Seq<EventModel>, e: EventModel)
    requires
        forall|i: int| 0 <= i < c.len() ==> is_crawl_reason((#[trigger] c[i]).reason),
    ensures
        crate::table::synth_base_opt(a + c, e) == crate::table::synth_base_opt(a, e),
        crate::table::synth_base(a + c, e) == crate::table::synth_base(a, e),
    decreases c.len(),
{
    if c.len() == 0 {
        assert(a + c =~= a);
    } else {
        assert((a + c).drop_last() =~= a + c.drop_last());
        assert((a + c).last() == c.last());
        assert forall|i: int| 0 <= i < c.drop_last().len() implies is_crawl_reason(
            (#[trigger] c.drop_last()[i]).reason,
        ) by {
            assert(c.drop_last()[i] == c[i]);
        }
        lemma_synth_base_split(a, c.drop_last(), e);
    }
}

/// The synthesized base reads only the fields reconciliation reads.
pub proof fn lemma_synth_base_core(t1: Seq<EventModel>, t2: Seq<EventModel>, e: EventModel)
    requires
        core_eq_table(t1, t2),
    ensures
        crate::table::synth_base_opt(t1, e) == crate::table::synth_base_opt(t2, e),
        crate::table::synth_base(t1, e) == crate::table::synth_base(t2, e),
    decreases t1.len(),
{
    if t1.len() > 0 {
        assert(core_eq_table(t1.drop_last(), t2.drop_last())) by {
            assert forall|i: int| 0 <= i < t1.drop_last().len() implies core_eq(
                #[trigger] t1.drop_last()[i],
                t2.drop_last()[i],
            ) by {
                assert(t1.drop_last()[i] == t1[i]);
                assert(t2.drop_last()[i] == t2[i]);
            }
        }
        lemma_synth_base_core(t1.drop_last(), t2.drop_last(), e);
        assert(core_eq(t1.last(), t2.last()));
    }
}

/// With no key of the batch in the table, every record is appended fresh.
pub proof fn lemma_fresh_all(tkeys: Seq<EventModel>, t0: Seq<EventModel>, b: Seq<EventModel>)
    requires
        forall|j: int| 0 <= j < b.len() ==> !key5_present(tkeys, #[trigger] b[j]),
    ensures
        fresh_rows(tkeys, t0, b).len() == b.len(),
        forall|j: int| 0 <= j < b.len() ==> fresh_rows(tkeys, t0, b)[j] == prepared(
            t0,
            #[trigger] b[j],
        ),
    decreases b.len(),
{
    if b.len() > 0 {
        let sub = b.subrange(1, b.len() as int);
        assert forall|j: int| 0 <= j < sub.len() implies !key5_present(
            tkeys,
            #[trigger] sub[j],
        ) by {
            assert(sub[j] == b[j + 1]);
        }
        lemma_fresh_all(tkeys, t0, sub);
        assert(fresh_rows(tkeys, t0, b) == seq![prepared(t0, b[0])] + fresh_rows(tkeys, t0, sub));
        assert forall|j: int| 0 <= j < b.len() implies fresh_rows(tkeys, t0, b)[j] == prepared(
            t0,
            #[trigger] b[j],
        ) by {
            if j > 0 {
                assert(fresh_rows(tkeys, t0, b)[j] == fresh_rows(tkeys, t0, sub)[j - 1]);
                assert(sub[j - 1] == b[j]);
            }
        }
    }
}

/// Deduplication never loses a conflict key.
pub proof fn lemma_dedup_key5_monotone(acc: Seq<EventModel>, s: Seq<EventModel>, e: EventModel)
    requires
        key5_present(acc, e),
    ensures
        key5_present(dedup_into(acc, s), e),
    decreases s.len(),
{
    if s.len() > 0 {
        let f = find_key5(acc, s[0]);
        lemma_find_key5_props(acc, s[0]);
        let acc2 = if f >= 0 {
            acc.update(f, absorb_dups(acc[f], s[0]))
        } else {
            acc.push(s[0])
        };
        let w = choose|i: int| 0 <= i < acc.len() && same_key5(#[trigger] acc[i], e);
        if f >= 0 && w == f {
            assert(acc2[w] == absorb_dups(acc[f], s[0]));
            crate::table::lemma_key5_stable(acc[f], e);
            assert(same_key5(acc2[w], e));
        } else {
            assert(acc2[w] == acc[w]);
        }
        assert(key5_present(acc2, e));
        lemma_dedup_key5_monotone(acc2, s.subrange(1, s.len() as int), e);
    }
}

/// After deduplication, every conflict key of the input is in the result.
pub proof fn lemma_dedup_key5_gains(acc: Seq<EventModel>, s: Seq<EventModel>, j: int)
    requires
        0 <= j < s.len(),
    ensures
        key5_present(dedup_into(acc, s), s[j]),
    decreases s.len(),
{
    let f = find_key5(acc, s[0]);
    lemma_find_key5_props(acc, s[0]);
    let acc2 = if f >= 0 {
        acc.update(f, absorb_dups(acc[f], s[0]))
    } else {
        acc.push(s[0])
    };
    if j == 0 {
        if f >= 0 {
            assert(acc2[f] == absorb_dups(acc[f], s[0]));
            crate::table::lemma_key5_stable(acc[f], s[0]);
            assert(same_key5(acc2[f], s[0]));
        } else {
            assert(acc2[acc.len() as int] == s[0]);
            assert(same_key5(acc2[acc.len() as int], s[0]));
        }
        assert(key5_present(acc2, s[0]));
        lemma_dedup_key5_monotone(acc2, s.subrange(1, s.len() as int), s[0]);
    } else {
        assert(s.subrange(1, s.len() as int)[j - 1] == s[j]);
        lemma_dedup_key5_gains(acc2, s.subrange(1, s.len() as int), j - 1);
    }
}

/// Deduplicating records whose keys are all already present only bumps
/// duplicate counters.
pub proof fn lemma_dedup_all_absorbs(acc: Seq<EventModel>, s: Seq<EventModel>)
    requires
        forall|j: int| 0 <= j < s.len() ==> key5_present(acc, #[trigger] s[j]),
    ensures
        eq_mod_dups_table(dedup_into(acc, s), acc),
    decreases s.len(),
{
    if s.len() > 0 {
        let f = find_key5(acc, s[0]);
        lemma_find_key5_props(acc, s[0]);
        assert(f >= 0) by {
            if f == -1 {
                let w = choose|i: int| 0 <= i < acc.len() && same_key5(#[trigger] acc[i], s[0]);
                assert(!same_key5(acc[w], s[0]));
            }
        }
        let acc2 = acc.update(f, absorb_dups(acc[f], s[0]));
        assert forall|j: int| 0 <= j < s.subrange(1, s.len() as int).len() implies key5_present(
            acc2,
            #[trigger] s.subrange(1, s.len() as int)[j],
        ) by {
            assert(s.subrange(1, s.len() as int)[j] == s[j + 1]);
            let w = choose|i: int| 0 <= i < acc.len() && same_key5(#[trigger] acc[i], s[j + 1]);
            if w == f {
                crate::table::lemma_key5_stable(acc[f], s[j + 1]);
                assert(same_key5(acc2[w], s[j + 1]));
            } else {
                assert(acc2[w] == acc[w]);
            }
        }
        lemma_dedup_all_absorbs(acc2, s.subrange(1, s.len() as int));
        assert forall|i: int| 0 <= i < acc.len() implies eq_mod_dups(
            #[trigger] dedup_into(acc, s)[i],
            acc[i],
        ) by {
            assert(eq_mod_dups(dedup_into(acc2, s.subrange(1, s.len() as int))[i], acc2[i]));
            if i == f {
                assert(eq_mod_dups(acc2[i], acc[i]));
            }
        }
    }
}

/// Rows a deduplication appends are records of its input, up to their
/// duplicate counters.
pub proof fn lemma_dedup_tail(acc: Seq<EventModel>, s: Seq<EventModel>, i: int)
    requires
        acc.len() <= i < dedup_into(acc, s).len(),
    ensures
        exists|j: int| 0 <= j < s.len() && eq_mod_dups(dedup_into(acc, s)[i], #[trigger] s[j]),
    decreases s.len(),
{
    let f = find_key5(acc, s[0]);
    lemma_find_key5_props(acc, s[0]);
    let acc2 = if f >= 0 {
        acc.update(f, absorb_dups(acc[f], s[0]))
    } else {
        acc.push(s[0])
    };
    let sub = s.subrange(1, s.len() as int);
    if f >= 0 {
        lemma_dedup_tail(acc2, sub, i);
        let j = choose|j: int| 0 <= j < sub.len() && eq_mod_dups(dedup_into(acc2, sub)[i], #[trigger] sub[j]);
        assert(sub[j] == s[j + 1]);
        assert(eq_mod_dups(dedup_into(acc, s)[i], s[j + 1]));
    } else {
        if i == acc.len() {
            lemma_dedup_acc_stable(acc2, sub);
            assert(eq_mod_dups(dedup_into(acc2, sub)[i], acc2[i]));
            assert(acc2[i] == s[0]);
        } else {
            lemma_dedup_tail(acc2, sub, i);
            let j = choose|j: int| 0 <= j < sub.len() && eq_mod_dups(dedup_into(acc2, sub)[i], #[trigger] sub[j]);
            assert(sub[j] == s[j + 1]);
            assert(eq_mod_dups(dedup_into(acc, s)[i], s[j + 1]));
        }
    }
}

/// Idempotence of re-crawls: ingesting the same crawl batch twice yields
/// identical row contents, up to the duplicate counters. Crawl records
/// carry no sequencer and crawl provenance, and their conflict keys are
/// pairwise distinct, as the crawler emits them; every stored row carries
/// a sequencer.
#[verifier::rlimit(100)]
pub proof fn lemma_crawl_ingest_idempotent(t: Seq<EventModel>, b: Seq<EventModel>)
    requires
        wf_table(t),
        forall|i: int| 0 <= i < t.len() ==> (#[trigger] t[i]).sequencer is Some,
        wf_table(b),
        forall|j: int|
            0 <= j < b.len() ==> (#[trigger] b[j]).sequencer is None && is_crawl_reason(
                b[j].reason,
            ),
    ensures
        eq_mod_dups_table(spec_ingest(spec_ingest(t, b), b), spec_ingest(t, b)),
{
    let u1 = upsert_all(t, t, b);
    // no crawl record's key is stored: a missing sequencer matches none
    assert forall|j: int| 0 <= j < b.len() implies !key5_present(t, #[trigger] b[j]) by {
        if key5_present(t, b[j]) {
            let w = choose|i: int| 0 <= i < t.len() && same_key5(#[trigger] t[i], b[j]);
            assert(t[w].sequencer == b[j].sequencer);
        }
    }
    assert(t + Seq::<EventModel>::empty() =~= t);
    assert(same_key5_table(t, t));
    lemma_upsert_decompose(t, t, t, Seq::empty(), b);
    lemma_fresh_all(t, t, b);
    let fresh = fresh_rows(t, t, b);
    assert(bumped_rows(t, b) =~= t) by {
        assert forall|i: int| 0 <= i < t.len() implies !key5_in_batch(b, t[i]) by {
            if key5_in_batch(b, t[i]) {
                let j = choose|j: int| 0 <= j < b.len() && same_key5(#[trigger] b[j], t[i]);
                assert(b[j].sequencer == t[i].sequencer);
            }
        }
    }
    assert(bumped_rows(t, b) + Seq::<EventModel>::empty() + fresh =~= t + fresh);
    assert(u1 == t + fresh);
    assert forall|k: int| 0 <= k < fresh.len() implies is_crawl_reason(
        (#[trigger] fresh[k]).reason,
    ) by {
        assert(fresh[k] == prepared(t, b[k]));
    }
    // each crawl record synthesizes against the stored rows alone
    let q = Seq::new(b.len(), |j: int| synthesized_of(u1, prepared(t, b[j])));
    let sm1 = synth_map(u1);
    assert(sm1 =~= t + q) by {
        assert forall|i: int| 0 <= i < u1.len() implies sm1[i] == (t + q)[i] by {
            if i < t.len() {
                assert(u1[i] == t[i]);
                assert(!is_unsynthesized(t[i]));
            } else {
                assert(u1[i] == fresh[i - t.len()]);
                assert(u1[i] == prepared(t, b[i - t.len()]));
                assert(is_unsynthesized(u1[i]));
                assert(sm1[i] == synthesized_of(u1, prepared(t, b[i - t.len()])));
            }
        }
    }
    let s1 = synth_pass(u1);
    assert(Seq::<EventModel>::empty() + t =~= t);
    crate::table::lemma_dedup_append(Seq::empty(), t, q);
    lemma_dedup_distinct(Seq::empty(), t);
    assert(s1 == dedup_into(t, q));
    lemma_synth_pass_wf(u1);
    let r1 = reconcile_pass(s1, b);
    let c1 = carry_pass(r1);
    assert(spec_ingest(t, b) == c1);
    lemma_flag_passes_wf(s1, b);
    lemma_dedup_acc_stable(t, q);
    assert(c1.len() == s1.len());
    assert forall|i: int| 0 <= i < c1.len() implies core_eq(#[trigger] c1[i], s1[i]) by {}
    // every settled row carries a sequencer
    assert forall|i: int| 0 <= i < s1.len() implies (#[trigger] s1[i]).sequencer is Some by {
        if i < t.len() {
            assert(eq_mod_dups(s1[i], t[i]));
        } else {
            lemma_dedup_tail(t, q, i);
            let j = choose|j: int| 0 <= j < q.len() && eq_mod_dups(dedup_into(t, q)[i], #[trigger] q[j]);
            assert(q[j].sequencer is Some);
        }
    }
    // the settled rows split into the stored part and a crawl tail
    let sa = s1.subrange(0, t.len() as int);
    let sc = s1.subrange(t.len() as int, s1.len() as int);
    assert(s1 =~= sa + sc);
    assert(core_eq_table(sa, t)) by {
        assert forall|i: int| 0 <= i < sa.len() implies core_eq(#[trigger] sa[i], t[i]) by {
            assert(sa[i] == s1[i]);
            assert(eq_mod_dups(s1[i], t[i]));
        }
    }
    assert forall|k: int| 0 <= k < sc.len() implies is_crawl_reason(
        (#[trigger] sc[k]).reason,
    ) by {
        assert(sc[k] == s1[t.len() + k]);
        lemma_dedup_tail(t, q, t.len() + k);
        let j = choose|j: int|
            0 <= j < q.len() && eq_mod_dups(dedup_into(t, q)[t.len() + k], #[trigger] q[j]);
        assert(q[j].reason == b[j].reason);
    }
    // round two: the crawl records are appended and synthesized alike
    assert forall|j: int| 0 <= j < b.len() implies !key5_present(c1, #[trigger] b[j]) by {
        if key5_present(c1, b[j]) {
            let w = choose|i: int| 0 <= i < c1.len() && same_key5(#[trigger] c1[i], b[j]);
            assert(core_eq(c1[w], s1[w]));
            assert(s1[w].sequencer == b[j].sequencer);
        }
    }
    assert(c1 + Seq::<EventModel>::empty() =~= c1);
    assert(same_key5_table(c1, c1));
    lemma_upsert_decompose(c1, c1, c1, Seq::empty(), b);
    lemma_fresh_all(c1, c1, b);
    let fresh2 = fresh_rows(c1, c1, b);
    assert(fresh2 =~= fresh) by {
        assert forall|j: int| 0 <= j < b.len() implies fresh2[j] == fresh[j] by {
            lemma_reorder_null(c1, b[j]);
            lemma_reorder_null(t, b[j]);
            assert(fresh2[j] == prepared(c1, b[j]));
            assert(fresh[j] == prepared(t, b[j]));
        }
    }
    assert(bumped_rows(c1, b) =~= c1) by {
        assert forall|i: int| 0 <= i < c1.len() implies !key5_in_batch(b, c1[i]) by {
            if key5_in_batch(b, c1[i]) {
                let j = choose|j: int| 0 <= j < b.len() && same_key5(#[trigger] b[j], c1[i]);
                assert(same_key5(c1[i], b[j]));
                assert(key5_present(c1, b[j]));
            }
        }
    }
    let u2 = upsert_all(c1, c1, b);
    assert(bumped_rows(c1, b) + Seq::<EventModel>::empty() + fresh2 =~= c1 + fresh);
    assert(u2 == c1 + fresh);
    // the synthesized sequencers repeat
    let sm2 = synth_map(u2);
    assert(sm2 =~= c1 + q) by {
        assert forall|i: int| 0 <= i < u2.len() implies sm2[i] == (c1 + q)[i] by {
            if i < c1.len() {
                assert(u2[i] == c1[i]);
                assert(core_eq(c1[i], s1[i]));
                assert(!is_unsynthesized(c1[i]));
            } else {
                let j = i - c1.len();
                assert(u2[i] == fresh[j]);
                assert(u2[i] == prepared(t, b[j]));
                assert(is_unsynthesized(u2[i]));
                assert(sm2[i] == synthesized_of(u2, prepared(t, b[j])));
                // the base is the same in both rounds
                lemma_synth_base_split(c1, fresh, prepared(t, b[j]));
                lemma_synth_base_core(c1, s1, prepared(t, b[j]));
                lemma_synth_base_split(sa, sc, prepared(t, b[j]));
                lemma_synth_base_core(sa, t, prepared(t, b[j]));
                lemma_synth_base_split(t, fresh, prepared(t, b[j]));
                assert(crate::table::synth_base(u2, prepared(t, b[j]))
                    == crate::table::synth_base(u1, prepared(t, b[j])));
                assert(sm2[i] == q[j]);
            }
        }
    }
    let s2 = synth_pass(u2);
    assert(Seq::<EventModel>::empty() + c1 =~= c1);
    crate::table::lemma_dedup_append(Seq::empty(), c1, q);
    lemma_dedup_distinct(Seq::empty(), c1);
    assert(s2 == dedup_into(c1, q));
    // every synthesized key already has its settled row
    assert forall|j: int| 0 <= j < q.len() implies key5_present(c1, #[trigger] q[j]) by {
        lemma_dedup_key5_gains(t, q, j);
        let w = choose|i: int| 0 <= i < s1.len() && same_key5(#[trigger] s1[i], q[j]);
        assert(core_eq(c1[w], s1[w]));
        assert(same_key5(c1[w], q[j]));
    }
    lemma_dedup_all_absorbs(c1, q);
    assert(eq_mod_dups_table(s2, c1));
    lemma_reingest_settles(s1, b, s2);
    assert(spec_ingest(c1, b) == carry_pass(reconcile_pass(s2, b)));
}

/// Rows an upsert appends are prepared batch records, up to their
/// duplicate counters.
pub proof fn lemma_upsert_tail(
    t0: Seq<EventModel>,
    t: Seq<EventModel>,
    b: Seq<EventModel>,
    i: int,
)
    requires
        t.len() <= i < upsert_all(t0, t, b).len(),
    ensures
        exists|j: int|
            0 <= j < b.len() && eq_mod_dups(upsert_all(t0, t, b)[i], prepared(t0, #[trigger] b[j])),
    decreases b.len(),
{
    if b.len() == 0 {
        assert(upsert_all(t0, t, b) == t);
    } else {
        let f = find_key5(t, b[0]);
        lemma_find_key5_props(t, b[0]);
        let t2 = upsert_one(t0, t, b[0]);
        let sub = b.subrange(1, b.len() as int);
        if f >= 0 {
            lemma_upsert_tail(t0, t2, sub, i);
            let j = choose|j: int|
                0 <= j < sub.len() && eq_mod_dups(upsert_all(t0, t2, sub)[i], prepared(
                    t0,
                    #[trigger] sub[j],
                ));
            assert(sub[j] == b[j + 1]);
            assert(eq_mod_dups(upsert_all(t0, t, b)[i], prepared(t0, b[j + 1])));
        } else {
            if i == t.len() {
                lemma_upsert_prefix(t0, t2, sub);
                assert(eq_mod_dups(upsert_all(t0, t2, sub)[i], t2[i]));
                assert(t2[i] == prepared(t0, b[0]));
                assert(eq_mod_dups(upsert_all(t0, t, b)[i], prepared(t0, b[0])));
            } else {
                lemma_upsert_tail(t0, t2, sub, i);
                let j = choose|j: int|
                    0 <= j < sub.len() && eq_mod_dups(upsert_all(t0, t2, sub)[i], prepared(
                        t0,
                        #[trigger] sub[j],
                    ));
                assert(sub[j] == b[j + 1]);
                assert(eq_mod_dups(upsert_all(t0, t, b)[i], prepared(t0, b[j + 1])));
            }
        }
    }
}

/// Attribute carry-over with the carried value: when exactly one row of a
/// version carries attributes, and the batch brings none for that version,
/// a re-crawl leaves every crawl record of the version with exactly that
/// value, and changes no other row's attributes to anything else.
pub proof fn lemma_attribute_carry_over_value(t: Seq<EventModel>, b: Seq<EventModel>, w: int)
    requires
        wf_table(t),
        forall|i: int| 0 <= i < t.len() ==> !is_unsynthesized(#[trigger] t[i]),
        0 <= w < t.len(),
        t[w].attributes is Some,
        t[w].sequencer is Some,
        forall|i: int|
            0 <= i < t.len() && i != w ==> !(same_version(#[trigger] t[i], t[w]) && t[
                i
            ].attributes is Some),
        forall|j: int|
            0 <= j < b.len() && same_version(#[trigger] b[j], t[w]) ==> b[j].attributes is None,
    ensures
        forall|i: int|
            0 <= i < spec_ingest(t, b).len() && same_version(#[trigger] spec_ingest(t, b)[i], t[w])
                && is_crawl_reason(spec_ingest(t, b)[i].reason) ==> spec_ingest(
                t,
                b,
            )[i].attributes == t[w].attributes,
        forall|i: int|
            0 <= i < spec_ingest(t, b).len() && same_version(#[trigger] spec_ingest(t, b)[i], t[w])
                && spec_ingest(t, b)[i].attributes is Some ==> spec_ingest(t, b)[i].attributes == t[
                w
            ].attributes,
{
    let u1 = upsert_all(t, t, b);
    let sm = synth_map(u1);
    let s1 = synth_pass(u1);
    let r1 = reconcile_pass(s1, b);
    let c1 = carry_pass(r1);
    assert(spec_ingest(t, b) == c1);
    lemma_upsert_prefix(t, t, b);
    lemma_synth_pass_wf(u1);
    // every upserted row of the version that carries attributes carries the
    // one stored value
    assert forall|i: int|
        0 <= i < u1.len() && same_version(#[trigger] u1[i], t[w]) && u1[i].attributes is Some
        implies u1[i].attributes == t[w].attributes by {
        if i < t.len() {
            assert(eq_mod_dups(u1[i], t[i]));
            if i != w {
                assert(same_version(t[i], t[w]));
                assert(!(same_version(t[i], t[w]) && t[i].attributes is Some));
            }
        } else {
            lemma_upsert_tail(t, t, b, i);
            let j = choose|j: int|
                0 <= j < b.len() && eq_mod_dups(u1[i], prepared(t, #[trigger] b[j]));
            assert(same_version(b[j], t[w]));
            assert(b[j].attributes is None);
        }
    }
    // synthesis changes no attributes and no version
    assert forall|i: int|
        0 <= i < sm.len() && same_version(#[trigger] sm[i], t[w]) && sm[i].attributes is Some
        implies sm[i].attributes == t[w].attributes by {
        if is_unsynthesized(u1[i]) {
            assert(sm[i] == synthesized_of(u1, u1[i]));
        }
        assert(sm[i].attributes == u1[i].attributes);
        assert(same_version(u1[i], t[w]));
    }
    // deduplication keeps only records of the synthesized table
    assert forall|i: int|
        0 <= i < s1.len() && same_version(#[trigger] s1[i], t[w]) && s1[i].attributes is Some
        implies s1[i].attributes == t[w].attributes by {
        lemma_dedup_tail(Seq::empty(), sm, i);
        let j = choose|j: int| 0 <= j < sm.len() && eq_mod_dups(dedup_into(Seq::empty(), sm)[i], #[trigger] sm[j]);
        assert(s1[i].attributes == sm[j].attributes);
        assert(same_version(sm[j], t[w]));
    }
    // reconciliation keeps attributes and versions
    assert forall|i: int|
        0 <= i < r1.len() && same_version(#[trigger] r1[i], t[w]) && r1[i].attributes is Some
        implies r1[i].attributes == t[w].attributes by {
        assert(r1[i].attributes == s1[i].attributes);
        assert(same_version(s1[i], t[w]));
    }
    // so whatever the carry-over pass copies for this version is the value
    assert forall|i: int|
        0 <= i < c1.len() && same_version(#[trigger] c1[i], t[w]) && c1[i].attributes is Some
        implies c1[i].attributes == t[w].attributes by {
        assert(same_version(r1[i], t[w]));
        if is_crawl_reason(r1[i].reason) && r1[i].attributes is None {
            assert(c1[i].attributes == crate::table::carried_attrs(r1, r1[i]));
            lemma_best_attr_props(r1, r1[i]);
            lemma_best_attr_in_table(r1, r1[i]);
            if best_attr_row(r1, r1[i]) is Some {
                let m = best_attr_row(r1, r1[i])->0;
                let mi = choose|j: int| 0 <= j < r1.len() && r1[j] == m;
                assert(same_version(m, r1[i]));
                assert(same_version(r1[mi], t[w]));
                assert(r1[mi].attributes == t[w].attributes);
            }
        } else {
            assert(c1[i] == r1[i]);
        }
    }
    // and the crawl rows of the version all receive it
    lemma_attribute_carry_over(t, b, w);
}

} // verus!
