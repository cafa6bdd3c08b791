//! The normalizer: collapse duplicate raw events, drop the ones that are
//! neither creations nor deletions, and sort what remains ascending by
//! `(sequencer, event_type)` with absent sequencers first.

use vstd::prelude::*;

use crate::event::{
    ev_ord_lt, events_model, lemma_ev_ord_asym, lemma_ev_ord_connected, lemma_ev_ord_trans,
    EventModel, EventType, FlatS3EventMessage, FlatS3EventMessages,
};
use crate::table::{dedup_into, lemma_dedup_append, lemma_dedup_single};

verus! {

broadcast use vstd::seq_lib::group_to_multiset_ensures, vstd::multiset::group_multiset_axioms;

/// Whether an event records a lifecycle transition the engine keeps.
pub open spec fn is_lifecycle(e: EventModel) -> bool {
    e.event_type == EventType::Created || e.event_type == EventType::Deleted
}

/// The events that record a creation or deletion, in arrival order.
pub open spec fn spec_filter_lifecycle(s: Seq<EventModel>) -> Seq<EventModel>
    decreases s.len(),
{
    if s.len() == 0 {
        Seq::empty()
    } else {
        let rest = spec_filter_lifecycle(s.drop_last());
        if is_lifecycle(s.last()) {
            rest.push(s.last())
        } else {
            rest
        }
    }
}

/// A sequence sorted ascending in the event order.
pub open spec fn sorted_events(s: Seq<EventModel>) -> bool {
    forall|i: int, j: int| 0 <= i < j < s.len() ==> !ev_ord_lt(#[trigger] s[j], #[trigger] s[i])
}

/// `e` placed into the sorted `acc`, after any event it does not precede:
/// insertion keeps the arrival order of events that tie.
pub open spec fn insert_sorted(acc: Seq<EventModel>, e: EventModel) -> Seq<EventModel>
    decreases acc.len(),
{
    if acc.len() == 0 {
        seq![e]
    } else if !ev_ord_lt(e, acc.last()) {
        acc.push(e)
    } else {
        insert_sorted(acc.drop_last(), e).push(acc.last())
    }
}

/// The events sorted ascending in the event order by repeated insertion,
/// which keeps arrival order among ties.
pub open spec fn spec_sort(s: Seq<EventModel>) -> Seq<EventModel>
    decreases s.len(),
{
    if s.len() == 0 {
        Seq::empty()
    } else {
        insert_sorted(spec_sort(s.drop_last()), s.last())
    }
}

/// Insertion keeps sortedness and adds exactly the inserted event.
pub proof fn lemma_insert_sorted_props(acc: Seq<EventModel>, e: EventModel)
    requires
        sorted_events(acc),
    ensures
        sorted_events(insert_sorted(acc, e)),
        insert_sorted(acc, e).to_multiset() == acc.to_multiset().insert(e),
        insert_sorted(acc, e).len() == acc.len() + 1,
    decreases acc.len(),
{
    let r = insert_sorted(acc, e);
    if acc.len() == 0 {
        assert(seq![e] =~= acc.push(e));
        assert(r.to_multiset() =~= acc.to_multiset().insert(e));
    } else if !ev_ord_lt(e, acc.last()) {
        assert(r == acc.push(e));
        assert(r.to_multiset() =~= acc.to_multiset().insert(e));
        assert forall|i: int, j: int| 0 <= i < j < r.len() implies !ev_ord_lt(r[j], r[i]) by {
            if j == r.len() - 1 {
                // r[j] == e; every acc element is <= acc.last() and e is >= acc.last()
                if ev_ord_lt(e, r[i]) {
                    lemma_ev_ord_connected(r[i], acc.last());
                    if ev_ord_lt(r[i], acc.last()) {
                        lemma_ev_ord_trans(e, r[i], acc.last());
                    } else if ev_ord_lt(acc.last(), r[i]) {
                        assert(!ev_ord_lt(acc.last(), r[i]));
                    } else {
                        // tie between r[i] and acc.last()
                        assert(ev_ord_lt(e, acc.last()));
                    }
                }
            }
        }
    } else {
        lemma_insert_sorted_props(acc.drop_last(), e);
        let inner = insert_sorted(acc.drop_last(), e);
        assert(r == inner.push(acc.last()));
        assert(r.to_multiset() =~= inner.to_multiset().insert(acc.last()));
        assert(acc.drop_last().push(acc.last()) =~= acc);
        assert(acc.to_multiset() =~= acc.drop_last().to_multiset().insert(acc.last()));
        assert(inner.to_multiset() == acc.drop_last().to_multiset().insert(e));
        assert(r.to_multiset() =~= acc.to_multiset().insert(e));
        // sortedness: every element of inner is either an old element <= acc.last(),
        // or e itself, and e < acc.last()
        assert forall|i: int, j: int| 0 <= i < j < r.len() implies !ev_ord_lt(r[j], r[i]) by {
            if j == r.len() - 1 {
                if ev_ord_lt(acc.last(), r[i]) {
                    lemma_inner_elements(acc.drop_last(), e, i);
                    let x = inner[i];
                    if x == e {
                        lemma_ev_ord_asym(e, acc.last());
                    } else {
                        let k = choose|k: int|
                            0 <= k < acc.drop_last().len() && acc.drop_last()[k] == x;
                        assert(!ev_ord_lt(acc.last(), acc[k]));
                    }
                }
            }
        }
    }
}

/// Every element of an insertion result is the inserted event or one of the
/// previous elements.
pub proof fn lemma_inner_elements(acc: Seq<EventModel>, e: EventModel, i: int)
    requires
        0 <= i < insert_sorted(acc, e).len(),
    ensures
        insert_sorted(acc, e)[i] == e || exists|k: int| 0 <= k < acc.len() && acc[k]
            == insert_sorted(acc, e)[i],
    decreases acc.len(),
{
    let r = insert_sorted(acc, e);
    if acc.len() == 0 {
    } else if !ev_ord_lt(e, acc.last()) {
        if i < acc.len() {
            assert(acc[i] == r[i]);
        }
    } else {
        if i == r.len() - 1 {
            assert(r[i] == acc.last());
            assert(acc[acc.len() - 1] == acc.last());
        } else {
            lemma_inner_elements(acc.drop_last(), e, i);
            if r[i] != e {
                let k = choose|k: int|
                    0 <= k < acc.drop_last().len() && acc.drop_last()[k] == insert_sorted(
                        acc.drop_last(),
                        e,
                    )[i];
                assert(acc[k] == r[i]);
            }
        }
    }
}

/// Sorting yields a sorted sequence with the same events.
pub proof fn lemma_spec_sort_props(s: Seq<EventModel>)
    ensures
        sorted_events(spec_sort(s)),
        spec_sort(s).to_multiset() == s.to_multiset(),
        spec_sort(s).len() == s.len(),
    decreases s.len(),
{
    if s.len() > 0 {
        lemma_spec_sort_props(s.drop_last());
        lemma_insert_sorted_props(spec_sort(s.drop_last()), s.last());
        assert(s.drop_last().push(s.last()) =~= s);
        assert(s.to_multiset() =~= s.drop_last().to_multiset().insert(s.last()));
    }
}

/// The full normalization of a raw batch: filter, collapse duplicates, sort.
pub open spec fn spec_normalize(s: Seq<EventModel>) -> Seq<EventModel> {
    spec_sort(dedup_into(Seq::empty(), spec_filter_lifecycle(s)))
}

/// Keep only creation and deletion events, in arrival order.
#[verifier::loop_isolation(false)]
fn filter_lifecycle(events: &Vec<FlatS3EventMessage>) -> (r: Vec<FlatS3EventMessage>)
    ensures
        events_model(r@) == spec_filter_lifecycle(events_model(events@)),
{
    let ghost t = events_model(events@);
    let mut out: Vec<FlatS3EventMessage> = Vec::new();
    let mut i: usize = 0;
    while i < events.len()
        invariant
            i <= t.len(),
            events_model(out@) == spec_filter_lifecycle(t.subrange(0, i as int)),
        decreases t.len() - i,
    {
        proof {
            assert(t.subrange(0, i + 1).drop_last() =~= t.subrange(0, i as int));
            assert(t.subrange(0, i + 1).last() == t[i as int]);
        }
        let e = &events[i];
        if matches!(e.event_type, EventType::Created | EventType::Deleted) {
            let ghost prev = events_model(out@);
            out.push(e.duplicate());
            proof {
                assert(events_model(out@) =~= prev.push(t[i as int]));
            }
        }
        i = i + 1;
    }
    proof {
        assert(t.subrange(0, t.len() as int) =~= t);
    }
    out
}

/// Collapse events that share the conflict key, accumulating on the first
/// occurrence one duplicate count per collapsed event.
#[verifier::loop_isolation(false)]
fn dedup_events(events: &Vec<FlatS3EventMessage>) -> (r: Vec<FlatS3EventMessage>)
    ensures
        events_model(r@) == dedup_into(Seq::empty(), events_model(events@)),
{
    let ghost t = events_model(events@);
    let mut acc: Vec<FlatS3EventMessage> = Vec::new();
    let mut i: usize = 0;
    while i < events.len()
        invariant
            i <= t.len(),
            events_model(acc@) == dedup_into(Seq::empty(), t.subrange(0, i as int)),
        decreases t.len() - i,
    {
        let ghost da = events_model(acc@);
        let e = &events[i];
        match crate::table::find_row_in(&acc, e) {
            Option::Some(f) => {
                let mut row = acc.remove(f);
                row.number_duplicate_events = crate::table::absorb_counter_pub(
                    row.number_duplicate_events,
                    e.number_duplicate_events,
                );
                acc.insert(f, row);
                proof {
                    assert(events_model(acc@) =~= da.update(
                        f as int,
                        crate::table::absorb_dups(da[f as int], t[i as int]),
                    ));
                }
            },
            Option::None => {
                acc.push(e.duplicate());
                proof {
                    assert(events_model(acc@) =~= da.push(t[i as int]));
                }
            },
        }
        proof {
            assert(t.subrange(0, i + 1) =~= t.subrange(0, i as int) + seq![t[i as int]]);
            lemma_dedup_append(Seq::empty(), t.subrange(0, i as int), seq![t[i as int]]);
            lemma_dedup_single(da, t[i as int]);
        }
        i = i + 1;
    }
    proof {
        assert(t.subrange(0, t.len() as int) =~= t);
    }
    acc
}

/// Sort events ascending by `(sequencer, event_type)`, absent sequencers
/// first, keeping arrival order among ties.
#[verifier::loop_isolation(false)]
fn sort_events(events: &Vec<FlatS3EventMessage>) -> (r: Vec<FlatS3EventMessage>)
    ensures
        events_model(r@) == spec_sort(events_model(events@)),
{
    let ghost t = events_model(events@);
    let mut acc: Vec<FlatS3EventMessage> = Vec::new();
    let mut i: usize = 0;
    while i < events.len()
        invariant
            i <= t.len(),
            events_model(acc@) == spec_sort(t.subrange(0, i as int)),
        decreases t.len() - i,
    {
        proof {
            assert(t.subrange(0, i + 1).drop_last() =~= t.subrange(0, i as int));
            assert(t.subrange(0, i + 1).last() == t[i as int]);
        }
        let ghost sa = events_model(acc@);
        let e = &events[i];
        let mut pos: usize = acc.len();
        proof {
            assert(sa.subrange(0, sa.len() as int) =~= sa);
            assert(sa.subrange(sa.len() as int, sa.len() as int) =~= Seq::<EventModel>::empty());
            assert(insert_sorted(sa, t[i as int]) + Seq::<EventModel>::empty() =~= insert_sorted(
                sa,
                t[i as int],
            ));
        }
        while pos > 0 && e.ord_lt(&acc[pos - 1])
            invariant
                pos <= acc@.len(),
                insert_sorted(sa, t[i as int]) == insert_sorted(
                    sa.subrange(0, pos as int),
                    t[i as int],
                ) + sa.subrange(pos as int, sa.len() as int),
            decreases pos,
        {
            proof {
                let p = pos - 1;
                assert(sa.subrange(0, pos as int).drop_last() =~= sa.subrange(0, p));
                assert(sa.subrange(0, pos as int).last() == sa[p]);
                assert(insert_sorted(sa.subrange(0, pos as int), t[i as int]) == insert_sorted(
                    sa.subrange(0, p),
                    t[i as int],
                ).push(sa[p]));
                assert(insert_sorted(sa.subrange(0, p), t[i as int]).push(sa[p]) + sa.subrange(
                    pos as int,
                    sa.len() as int,
                ) =~= insert_sorted(sa.subrange(0, p), t[i as int]) + sa.subrange(
                    p,
                    sa.len() as int,
                ));
            }
            pos = pos - 1;
        }
        proof {
            if pos == 0 {
                assert(sa.subrange(0, 0) =~= Seq::<EventModel>::empty());
                assert(insert_sorted(Seq::<EventModel>::empty(), t[i as int]) =~= seq![
                    t[i as int],
                ]);
            } else {
                assert(sa.subrange(0, pos as int).last() == sa[pos - 1]);
                assert(insert_sorted(sa.subrange(0, pos as int), t[i as int]) == sa.subrange(
                    0,
                    pos as int,
                ).push(t[i as int]));
            }
        }
        acc.insert(pos, e.duplicate());
        proof {
            assert(events_model(acc@) =~= insert_sorted(sa, t[i as int]));
        }
        i = i + 1;
    }
    proof {
        assert(t.subrange(0, t.len() as int) =~= t);
    }
    acc
}

impl FlatS3EventMessages {
    /// Normalize a raw batch: drop events that are neither creations nor
    /// deletions, collapse duplicates onto their first occurrence, and sort
    /// ascending by `(sequencer, event_type)` with absent sequencers first.
    pub fn normalize(&self) -> (r: FlatS3EventMessages)
        ensures
            r@ == spec_normalize(self@),
            sorted_events(r@),
    {
        let filtered = filter_lifecycle(&self.0);
        let deduped = dedup_events(&filtered);
        let sorted = sort_events(&deduped);
        proof {
            lemma_spec_sort_props(events_model(deduped@));
        }
        FlatS3EventMessages(sorted)
    }
}

} // verus!
