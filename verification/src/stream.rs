use vstd::prelude::*;
use vstd::multiset::Multiset;
use vstd::seq_lib::lemma_multiset_commutative;
use crate::frontier::Frontier;
use crate::value::{Event, EventModel, Record, event_model, events_model};

verus! {

/// The typed conduit from one operator's output to the next operator's
/// input: the timestamped records emitted so far, in emission order, and
/// the emitting operator's output frontier.
pub struct Stream {
    pub events: Vec<Event>,
    pub frontier: Frontier,
}

impl Stream {
    /// The model of the stream's contents: its events, in order.
    pub open spec fn evs(self) -> Seq<EventModel> {
        events_model(self.events@)
    }

    /// An empty stream whose frontier reports every round still open.
    pub fn new() -> (r: Stream)
        ensures
            r.evs() == Seq::<EventModel>::empty(),
            r.frontier == (Frontier { lower: 0, open: true }),
    {
        let r = Stream { events: Vec::new(), frontier: Frontier::new() };
        proof {
            assert(r.evs() =~= Seq::<EventModel>::empty());
        }
        r
    }
}

/// An exact copy of a batch of events.
fn dup_events(v: &Vec<Event>) -> (r: Vec<Event>)
    ensures
        events_model(r@) == events_model(v@),
{
    let mut r: Vec<Event> = Vec::new();
    let mut i: usize = 0;
    while i < v.len()
        invariant
            i <= v.len(),
            r@.len() == i,
            forall|j: int|
                0 <= j < i ==> (#[trigger] r@[j]).0 == v@[j].0 && r@[j].1@ == v@[j].1@,
        decreases v.len() - i,
    {
        let e = &v[i];
        r.push((e.0, e.1.dup()));
        i = i + 1;
    }
    proof {
        assert forall|j: int| 0 <= j < v@.len() implies events_model(r@)[j] == events_model(v@)[j]
        by {
            assert(r@[j].0 == v@[j].0 && r@[j].1@ == v@[j].1@);
        }
        assert(events_model(r@) =~= events_model(v@));
    }
    r
}

/// The models of a batch of streams, one event sequence per stream,
/// in the order the streams were handed in.
pub open spec fn streams_events(ss: Seq<Stream>) -> Seq<Seq<EventModel>> {
    ss.map_values(|s: Stream| s.evs())
}

/// Every one of the first `n` streams has closed round `t`.
pub open spec fn all_closed(ss: Seq<Stream>, n: int, t: u64) -> bool {
    forall|i: int| 0 <= i < n ==> (#[trigger] ss[i].frontier).is_closed(t)
}

/// Merge a batch of streams into one. The output carries, per round,
/// exactly the records of every input at that round — the events are the
/// inputs' events, input by input, each input's own order preserved. The
/// output frontier is the pointwise minimum of the input frontiers: a
/// round is closed downstream only once every input has closed it.
pub fn concatenate(streams: &Vec<Stream>) -> (out: Stream)
    ensures
        out.evs() == streams_events(streams@).flatten(),
        forall|t: u64| out.frontier.is_closed(t) <==> all_closed(streams@, streams@.len() as int, t),
{
    let mut events: Vec<Event> = Vec::new();
    let mut frontier = Frontier { lower: 0, open: false };
    let mut i: usize = 0;
    proof {
        assert(streams_events(streams@.subrange(0, 0)).flatten() =~= Seq::<EventModel>::empty());
        assert(events_model(events@) =~= Seq::<EventModel>::empty());
    }
    while i < streams.len()
        invariant
            i <= streams.len(),
            events_model(events@) == streams_events(streams@.subrange(0, i as int)).flatten(),
            forall|t: u64| frontier.is_closed(t) <==> all_closed(streams@, i as int, t),
        decreases streams.len() - i,
    {
        let s = &streams[i];
        let mut more = dup_events(&s.events);
        let ghost pre = events_model(events@);
        let ghost mine = events_model(more@);
        events.append(&mut more);
        frontier = frontier.meet(&s.frontier);
        proof {
            assert(events_model(events@) =~= pre + mine);
            let shead = streams_events(streams@.subrange(0, i as int));
            let snext = streams_events(streams@.subrange(0, i + 1 as int));
            assert(snext =~= shead.push(streams@[i as int].evs()));
            shead.lemma_flatten_push(streams@[i as int].evs());
            assert(events_model(events@) == streams_events(streams@.subrange(0, i + 1 as int)).flatten());
            assert forall|t: u64| frontier.is_closed(t) <==> all_closed(streams@, i + 1 as int, t) by {
                if frontier.is_closed(t) {
                    assert(all_closed(streams@, i as int, t));
                    assert(streams@[i as int].frontier.is_closed(t));
                    assert forall|j: int| 0 <= j < i + 1 implies (#[trigger] streams@[j].frontier).is_closed(t) by {
                    }
                }
            }
        }
        i = i + 1;
    }
    proof {
        assert(streams@.subrange(0, streams@.len() as int) =~= streams@);
    }
    Stream { events, frontier }
}

/// The multiset union of a batch of event sequences.
pub open spec fn events_bag(ss: Seq<Seq<EventModel>>) -> Multiset<EventModel>
    decreases ss.len(),
{
    if ss.len() == 0 {
        Multiset::<EventModel>::empty()
    } else {
        events_bag(ss.drop_last()).add(ss.last().to_multiset())
    }
}

/// The merged stream holds each input's records with multiplicity
/// preserved and nothing else: the multiset of (round, record) events of
/// a concatenation equals the multiset union of its inputs' events,
/// whatever interleaving the merge chose.
pub proof fn lemma_concatenate_preserves_bag(ss: Seq<Seq<EventModel>>)
    ensures
        ss.flatten().to_multiset() == events_bag(ss),
    decreases ss.len(),
{
    broadcast use vstd::seq_lib::group_to_multiset_ensures;
    broadcast use vstd::multiset::lemma_multiset_empty_len;

    if ss.len() == 0 {
        assert(ss.flatten().len() == 0);
        assert(ss.flatten().to_multiset().len() == 0);
    } else {
        lemma_concatenate_preserves_bag(ss.drop_last());
        assert(ss =~= ss.drop_last().push(ss.last()));
        ss.drop_last().lemma_flatten_push(ss.last());
        lemma_multiset_commutative(ss.drop_last().flatten(), ss.last());
        assert(ss.flatten().to_multiset() =~= events_bag(ss));
    }
}

/// Observe a stream's emitted records without touching it: the result is
/// exactly the events emitted so far. Observation takes the stream by
/// shared reference, so it cannot alter any operator state.
pub fn inspect(s: &Stream) -> (r: Vec<Event>)
    ensures
        events_model(r@) == s.evs(),
{
    dup_events(&s.events)
}

/// Observation is idempotent: two observations of the same stream see
/// the same records, so replaying an observation neither double-counts
/// an emitted record nor changes what downstream operators receive.
pub proof fn lemma_inspect_idempotent(s: Stream, r1: Seq<Event>, r2: Seq<Event>)
    requires
        events_model(r1) == s.evs(),
        events_model(r2) == s.evs(),
    ensures
        events_model(r1) == events_model(r2),
{
}

} // verus!
