use vstd::prelude::*;

verus! {

/// The mathematical model of a payload value: what the contracts speak of.
/// A byte string is modelled as the sequence of its bytes, a join result as
/// the pair of the two matched values.
pub enum ValModel {
    Int(u64),
    Text(Seq<u8>),
    Pair(Box<ValModel>, Box<ValModel>),
}

/// A payload value flowing through a stream: an integer, a byte string,
/// or the pair that a join makes of two matched values.
#[derive(Debug, PartialEq, Eq)]
pub enum Val {
    Int(u64),
    Text(Vec<u8>),
    Pair(Box<Val>, Box<Val>),
}

/// The model of a value.
pub open spec fn val_model(v: Val) -> ValModel
    decreases v,
{
    match v {
        Val::Int(n) => ValModel::Int(n),
        Val::Text(bytes) => ValModel::Text(bytes@),
        Val::Pair(a, b) => ValModel::Pair(Box::new(val_model(*a)), Box::new(val_model(*b))),
    }
}

impl View for Val {
    type V = ValModel;

    open spec fn view(&self) -> ValModel {
        val_model(*self)
    }
}

impl Val {
    /// An exact copy of the value.
    pub fn dup(&self) -> (r: Val)
        ensures
            r@ == self@,
        decreases *self,
    {
        match self {
            Val::Int(n) => Val::Int(*n),
            Val::Text(bytes) => Val::Text(copy_bytes(bytes)),
            Val::Pair(a, b) => Val::Pair(Box::new((**a).dup()), Box::new((**b).dup())),
        }
    }
}

fn copy_bytes(v: &Vec<u8>) -> (r: Vec<u8>)
    ensures
        r@ == v@,
{
    let mut r: Vec<u8> = Vec::new();
    let mut i: usize = 0;
    while i < v.len()
        invariant
            i <= v.len(),
            r@ == v@.subrange(0, i as int),
        decreases v.len() - i,
    {
        r.push(v[i]);
        i = i + 1;
    }
    assert(v@.subrange(0, v@.len() as int) =~= v@);
    r
}

/// A record: the key/value payload that streams carry, always paired
/// with the round at which it was introduced.
#[derive(Debug, PartialEq, Eq)]
pub struct Record {
    pub key: u64,
    pub val: Val,
}

impl View for Record {
    type V = (u64, ValModel);

    open spec fn view(&self) -> (u64, ValModel) {
        (self.key, self.val@)
    }
}

impl Record {
    /// An exact copy of the record.
    pub fn dup(&self) -> (r: Record)
        ensures
            r@ == self@,
    {
        Record { key: self.key, val: self.val.dup() }
    }
}

/// A timestamped record as it stands in a stream: the round it was
/// introduced at, then the record itself.
pub type Event = (u64, Record);

/// The model of a timestamped record.
pub type EventModel = (u64, (u64, ValModel));

/// The model of one stream event.
pub open spec fn event_model(e: Event) -> EventModel {
    (e.0, e.1@)
}

/// The model of a batch of stream events, in order.
pub open spec fn events_model(s: Seq<Event>) -> Seq<EventModel> {
    s.map_values(|e: Event| event_model(e))
}

/// The model of a batch of plain records, in order.
pub open spec fn records_model(s: Seq<Record>) -> Seq<(u64, ValModel)> {
    s.map_values(|r: Record| r@)
}

/// The model of a batch of values, in order.
pub open spec fn vals_model(s: Seq<Val>) -> Seq<ValModel> {
    s.map_values(|v: Val| v@)
}

/// An exact copy of a batch of values.
pub fn dup_vals(v: &Vec<Val>) -> (r: Vec<Val>)
    ensures
        vals_model(r@) == vals_model(v@),
{
    let mut r: Vec<Val> = Vec::new();
    let mut i: usize = 0;
    while i < v.len()
        invariant
            i <= v.len(),
            r@.len() == i,
            forall|j: int| 0 <= j < i ==> (#[trigger] r@[j])@ == v@[j]@,
        decreases v.len() - i,
    {
        r.push(v[i].dup());
        i = i + 1;
    }
    proof {
        assert forall|j: int| 0 <= j < v@.len() implies vals_model(r@)[j] == vals_model(v@)[j] by {
            assert(r@[j]@ == v@[j]@);
        }
        assert(vals_model(r@) =~= vals_model(v@));
    }
    r
}

/// An exact copy of a batch of records.
pub fn dup_records(v: &Vec<Record>) -> (r: Vec<Record>)
    ensures
        records_model(r@) == records_model(v@),
{
    let mut r: Vec<Record> = Vec::new();
    let mut i: usize = 0;
    while i < v.len()
        invariant
            i <= v.len(),
            r@.len() == i,
            forall|j: int| 0 <= j < i ==> (#[trigger] r@[j])@ == v@[j]@,
        decreases v.len() - i,
    {
        r.push(v[i].dup());
        i = i + 1;
    }
    proof {
        assert forall|j: int| 0 <= j < v@.len() implies records_model(r@)[j] == records_model(v@)[j]
        by {
            assert(r@[j]@ == v@[j]@);
        }
        assert(records_model(r@) =~= records_model(v@));
    }
    r
}

} // verus!
