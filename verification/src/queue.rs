//! Verified model of the durable queue and its batch workers.
//!
//! A stream is an ordered log with one consumer group: `publish` appends
//! durably and returns a monotone id; entries read by the consumer stay
//! pending until acknowledged, so a worker crash between processing and
//! acknowledgment only redelivers.  One worker pass drains everything the
//! group has not acknowledged — pending entries first, then never-seen
//! entries, which in id order is the log order of the unacknowledged —
//! hands the batch to its handler, and acknowledges.  The store-level
//! idempotence absorbs the duplicates redelivery creates.

use vstd::prelude::*;

use crate::models::InsertMessage;
use crate::models::Receipt;
use crate::receipts::MessageReceipt;
use crate::receipts::upsert_all;
use crate::store::Message;
use crate::store::clone_msg;
use crate::store::has_msg_id;
use crate::store::insert_new_msgs;
use crate::store::msg_ids_unique;

verus! {

/// Where an entry stands with the consumer group.
#[derive(Clone, Copy)]
pub enum EntryState {
    /// Never delivered to the consumer.
    Fresh,
    /// Delivered, not acknowledged: redelivered on restart.
    Pending,
    /// Acknowledged: never delivered again.
    Acked,
}

/// Why a publish was refused.
#[derive(Debug)]
pub enum QueueError {
    /// The id space is exhausted.
    Full,
}

/// The payloads the consumer group has not acknowledged, in log order.
pub open spec fn unacked_payloads<T>(entries: Seq<(u64, T)>, states: Seq<EntryState>) -> Seq<T>
    decreases entries.len(),
{
    if entries.len() == 0 {
        Seq::empty()
    } else {
        let rest = unacked_payloads(entries.skip(1), states.skip(1));
        if states[0] is Acked {
            rest
        } else {
            seq![entries[0].1] + rest
        }
    }
}

/// Every entry acknowledged.
pub open spec fn all_acked(states: Seq<EntryState>) -> bool {
    forall|i: int| 0 <= i < states.len() ==> states[i] is Acked
}

/// The ids of the first `count` fresh entries, in log order.
pub open spec fn fresh_ids<T>(
    entries: Seq<(u64, T)>,
    states: Seq<EntryState>,
    count: int,
) -> Seq<u64>
    decreases entries.len(),
{
    if entries.len() == 0 || count <= 0 {
        Seq::empty()
    } else if states[0] is Fresh {
        seq![entries[0].0] + fresh_ids(entries.skip(1), states.skip(1), count - 1)
    } else {
        fresh_ids(entries.skip(1), states.skip(1), count)
    }
}

/// The states after the first `count` fresh entries turn pending.
pub open spec fn mark_fresh(states: Seq<EntryState>, count: int) -> Seq<EntryState>
    decreases states.len(),
{
    if states.len() == 0 {
        Seq::empty()
    } else if states[0] is Fresh && count > 0 {
        seq![EntryState::Pending] + mark_fresh(states.skip(1), count - 1)
    } else {
        seq![states[0]] + mark_fresh(states.skip(1), count)
    }
}

/// The ids of the first `count` pending entries, in log order.
pub open spec fn pending_ids<T>(
    entries: Seq<(u64, T)>,
    states: Seq<EntryState>,
    count: int,
) -> Seq<u64>
    decreases entries.len(),
{
    if entries.len() == 0 || count <= 0 {
        Seq::empty()
    } else if states[0] is Pending {
        seq![entries[0].0] + pending_ids(entries.skip(1), states.skip(1), count - 1)
    } else {
        pending_ids(entries.skip(1), states.skip(1), count)
    }
}

fn contains_id(ids: &Vec<u64>, id: u64) -> (r: bool)
    ensures
        r == ids@.contains(id),
{
    let n = ids.len();
    for i in 0..n
        invariant
            n == ids.len(),
            forall|j: int| 0 <= j < i ==> ids@[j] != id,
    {
        if ids[i] == id {
            proof {
                assert(ids@.contains(id));
            }
            return true;
        }
    }
    false
}

/// One durable stream with one consumer group.
pub struct Stream<T> {
    entries: Vec<(u64, T)>,
    states: Vec<EntryState>,
    next_id: u64,
}

impl<T> Stream<T> {
    pub closed spec fn entries(self) -> Seq<(u64, T)> {
        self.entries@
    }

    pub closed spec fn states(self) -> Seq<EntryState> {
        self.states@
    }

    pub closed spec fn next(self) -> int {
        self.next_id as int
    }

    /// Well-formed: one state per entry, ids strictly increasing and
    /// below the next id.
    pub open spec fn wf(self) -> bool {
        &&& self.states().len() == self.entries().len()
        &&& forall|i: int, j: int|
            0 <= i < j < self.entries().len() ==> (#[trigger] self.entries()[i]).0 < (
            #[trigger] self.entries()[j]).0
        &&& forall|i: int|
            0 <= i < self.entries().len() ==> (#[trigger] self.entries()[i]).0 < self.next()
    }

    pub fn new() -> (r: Stream<T>)
        ensures
            r.wf(),
            r.entries() == Seq::<(u64, T)>::empty(),
            r.states() == Seq::<EntryState>::empty(),
            r.next() == 0,
    {
        Stream { entries: Vec::new(), states: Vec::new(), next_id: 0 }
    }

    /// Durable append.  Returns the fresh monotone entry id; refused only
    /// when the id space is exhausted.
    pub fn publish(&mut self, payload: T) -> (r: Result<u64, QueueError>)
        requires
            old(self).wf(),
        ensures
            final(self).wf(),
            r is Ok <==> old(self).next() < u64::MAX,
            r matches Ok(id) ==> id as int == old(self).next() && final(self).entries() == old(
                self,
            ).entries().push((id, payload)) && final(self).states() == old(self).states().push(
                EntryState::Fresh,
            ) && final(self).next() == old(self).next() + 1,
            r is Err ==> final(self).entries() == old(self).entries() && final(self).states()
                == old(self).states(),
    {
        if self.next_id == u64::MAX {
            return Err(QueueError::Full);
        }
        let id = self.next_id;
        self.entries.push((id, payload));
        self.states.push(EntryState::Fresh);
        self.next_id = self.next_id + 1;
        proof {
            assert forall|i: int, j: int|
                0 <= i < j < self.entries@.len() implies (#[trigger] self.entries@[i]).0 < (
            #[trigger] self.entries@[j]).0 by {
                if j < self.entries@.len() - 1 {
                } else {
                    assert(self.entries@[i] == old(self).entries()[i]);
                }
            }
        }
        Ok(id)
    }

    /// Deliver up to `count` never-seen entries: their ids, in log
    /// order; each moves from fresh to pending and is redelivered until
    /// acknowledged.
    pub fn read_new(&mut self, count: usize) -> (r: Vec<u64>)
        requires
            old(self).wf(),
        ensures
            final(self).wf(),
            final(self).entries() == old(self).entries(),
            final(self).next() == old(self).next(),
            r@ == fresh_ids(old(self).entries(), old(self).states(), count as int),
            final(self).states() == mark_fresh(old(self).states(), count as int),
    {
        let n = self.entries.len();
        let ghost entries = self.entries@;
        let ghost states = self.states@;
        let mut out: Vec<u64> = Vec::new();
        let mut marked: Vec<EntryState> = Vec::new();
        let mut budget = count;
        proof {
            assert(entries.skip(0) =~= entries);
            assert(states.skip(0) =~= states);
        }
        for i in 0..n
            invariant
                n == self.entries.len(),
                entries == self.entries@,
                states == self.states@,
                states.len() == entries.len(),
                budget <= count,
                marked@.len() == i,
                out@ + fresh_ids(entries.skip(i as int), states.skip(i as int), budget as int)
                    =~= fresh_ids(entries, states, count as int),
                marked@ + mark_fresh(states.skip(i as int), budget as int) =~= mark_fresh(
                    states,
                    count as int,
                ),
        {
            proof {
                assert(entries.skip(i as int)[0] == entries[i as int]);
                assert(states.skip(i as int)[0] == states[i as int]);
                assert(entries.skip(i as int).skip(1) =~= entries.skip(i as int + 1));
                assert(states.skip(i as int).skip(1) =~= states.skip(i as int + 1));
            }
            let here = self.states[i];
            match here {
                EntryState::Fresh => {
                    if budget > 0 {
                        out.push(self.entries[i].0);
                        marked.push(EntryState::Pending);
                        budget = budget - 1;
                    } else {
                        marked.push(here);
                    }
                },
                _ => {
                    marked.push(here);
                },
            }
        }
        proof {
            assert(entries.skip(n as int) =~= Seq::<(u64, T)>::empty());
            assert(states.skip(n as int) =~= Seq::<EntryState>::empty());
            assert(out@ + Seq::<u64>::empty() =~= out@);
            assert(marked@ + Seq::<EntryState>::empty() =~= marked@);
        }
        self.states = marked;
        out
    }

    /// Redeliver up to `count` pending entries: their ids, in log order,
    /// with nothing changed — a crash between read and acknowledgment
    /// only makes them come back.
    pub fn read_pending(&self, count: usize) -> (r: Vec<u64>)
        requires
            self.wf(),
        ensures
            r@ == pending_ids(self.entries(), self.states(), count as int),
    {
        let n = self.entries.len();
        let ghost entries = self.entries@;
        let ghost states = self.states@;
        let mut out: Vec<u64> = Vec::new();
        let mut budget = count;
        proof {
            assert(entries.skip(0) =~= entries);
            assert(states.skip(0) =~= states);
        }
        for i in 0..n
            invariant
                n == self.entries.len(),
                entries == self.entries@,
                states == self.states@,
                states.len() == entries.len(),
                budget <= count,
                out@ + pending_ids(entries.skip(i as int), states.skip(i as int), budget as int)
                    =~= pending_ids(entries, states, count as int),
        {
            proof {
                assert(entries.skip(i as int)[0] == entries[i as int]);
                assert(states.skip(i as int)[0] == states[i as int]);
                assert(entries.skip(i as int).skip(1) =~= entries.skip(i as int + 1));
                assert(states.skip(i as int).skip(1) =~= states.skip(i as int + 1));
            }
            match self.states[i] {
                EntryState::Pending => {
                    if budget > 0 {
                        out.push(self.entries[i].0);
                        budget = budget - 1;
                    }
                },
                _ => {
                },
            }
        }
        proof {
            assert(entries.skip(n as int) =~= Seq::<(u64, T)>::empty());
            assert(out@ + Seq::<u64>::empty() =~= out@);
        }
        out
    }

    /// Acknowledge the named entries: they leave the pending set and are
    /// never delivered again.  Unknown ids are ignored.
    pub fn ack(&mut self, ids: &Vec<u64>)
        requires
            old(self).wf(),
        ensures
            final(self).wf(),
            final(self).entries() == old(self).entries(),
            final(self).next() == old(self).next(),
            final(self).states().len() == old(self).states().len(),
            forall|k: int|
                0 <= k < final(self).states().len() ==> (#[trigger] final(self).states()[k])
                    is Acked == (old(self).states()[k] is Acked || ids@.contains(
                    old(self).entries()[k].0,
                )),
            forall|k: int|
                0 <= k < final(self).states().len() && !(final(self).states()[k] is Acked) ==> (
                #[trigger] final(self).states()[k]) == old(self).states()[k],
    {
        let n = self.entries.len();
        let ghost entries = self.entries@;
        let ghost states = self.states@;
        let mut updated: Vec<EntryState> = Vec::new();
        for i in 0..n
            invariant
                n == self.entries.len(),
                entries == self.entries@,
                states == self.states@,
                states.len() == entries.len(),
                updated@.len() == i,
                forall|k: int|
                    0 <= k < i ==> (#[trigger] updated@[k]) is Acked == (states[k] is Acked
                        || ids@.contains(entries[k].0)),
                forall|k: int|
                    0 <= k < i && !(updated@[k] is Acked) ==> (#[trigger] updated@[k])
                        == states[k],
        {
            let here = self.states[i];
            let named = contains_id(ids, self.entries[i].0);
            match here {
                EntryState::Acked => {
                    updated.push(EntryState::Acked);
                },
                _ => {
                    if named {
                        updated.push(EntryState::Acked);
                    } else {
                        updated.push(here);
                    }
                },
            }
        }
        self.states = updated;
    }

    /// The number of entries the group has not acknowledged.
    pub fn unacked_len(&self) -> (r: usize)
        requires
            self.wf(),
        ensures
            r as int == unacked_payloads(self.entries(), self.states()).len(),
    {
        let n = self.entries.len();
        let ghost entries = self.entries@;
        let ghost states = self.states@;
        let mut count: usize = 0;
        proof {
            assert(entries.skip(0) =~= entries);
            assert(states.skip(0) =~= states);
        }
        for i in 0..n
            invariant
                n == self.entries.len(),
                entries == self.entries@,
                states == self.states@,
                states.len() == entries.len(),
                count <= i,
                count + unacked_payloads(entries.skip(i as int), states.skip(i as int)).len()
                    == unacked_payloads(entries, states).len(),
        {
            proof {
                assert(entries.skip(i as int)[0] == entries[i as int]);
                assert(states.skip(i as int)[0] == states[i as int]);
                assert(entries.skip(i as int).skip(1) =~= entries.skip(i as int + 1));
                assert(states.skip(i as int).skip(1) =~= states.skip(i as int + 1));
            }
            match self.states[i] {
                EntryState::Acked => {
                },
                _ => {
                    count = count + 1;
                },
            }
        }
        proof {
            assert(entries.skip(n as int) =~= Seq::<(u64, T)>::empty());
        }
        count
    }
}

/// The shape of a stream-read reply, as the queue's wire protocol nests
/// it: arrays of arrays, with the leaves already decoded to text.  The
/// chassis converts the transport's reply type into this one.
pub enum StreamValue {
    Bulk(Vec<StreamValue>),
    Data(String),
    Other,
}

/// The `(entry id, payload)` of one entry node, if it is well-formed:
/// `[id, [field, payload, …]]`.
pub open spec fn entry_pair(e: StreamValue) -> Option<(String, String)> {
    match e {
        StreamValue::Bulk(parts) => if parts@.len() >= 2 {
            match (parts@[0], parts@[1]) {
                (StreamValue::Data(id), StreamValue::Bulk(kv)) => if kv@.len() >= 2 {
                    match kv@[1] {
                        StreamValue::Data(payload) => Some((id, payload)),
                        _ => None,
                    }
                } else {
                    None
                },
                _ => None,
            }
        } else {
            None
        },
        _ => None,
    }
}

/// The pairs of the well-formed entries among `es`, in order.
pub open spec fn entries_pairs(es: Seq<StreamValue>) -> Seq<(String, String)>
    decreases es.len(),
{
    if es.len() == 0 {
        Seq::empty()
    } else {
        let rest = entries_pairs(es.skip(1));
        match entry_pair(es[0]) {
            Some(p) => seq![p] + rest,
            None => rest,
        }
    }
}

/// The pairs of one stream node: `[name, [entry, …]]`.
pub open spec fn stream_pairs(s: StreamValue) -> Seq<(String, String)> {
    match s {
        StreamValue::Bulk(items) => if items@.len() >= 2 {
            match items@[1] {
                StreamValue::Bulk(entries) => entries_pairs(entries@),
                _ => Seq::empty(),
            }
        } else {
            Seq::empty()
        },
        _ => Seq::empty(),
    }
}

/// The pairs of every stream node, concatenated.
pub open spec fn streams_pairs(ss: Seq<StreamValue>) -> Seq<(String, String)>
    decreases ss.len(),
{
    if ss.len() == 0 {
        Seq::empty()
    } else {
        stream_pairs(ss[0]) + streams_pairs(ss.skip(1))
    }
}

/// Every `(entry id, payload)` a stream-read reply carries.
pub open spec fn parsed_entries(v: StreamValue) -> Seq<(String, String)> {
    match v {
        StreamValue::Bulk(ss) => streams_pairs(ss@),
        _ => Seq::empty(),
    }
}

fn parse_one_entry(e: &StreamValue) -> (r: Option<(String, String)>)
    ensures
        r == entry_pair(*e),
{
    match e {
        StreamValue::Bulk(parts) => {
            if parts.len() < 2 {
                return None;
            }
            let id = match &parts[0] {
                StreamValue::Data(id) => id,
                _ => {
                    return None;
                },
            };
            match &parts[1] {
                StreamValue::Bulk(kv) => {
                    if kv.len() < 2 {
                        return None;
                    }
                    match &kv[1] {
                        StreamValue::Data(payload) => Some((id.clone(), payload.clone())),
                        _ => None,
                    }
                },
                _ => None,
            }
        },
        _ => None,
    }
}

/// Parse a stream-read reply into `(entry id, payload)` pairs, in reply
/// order.  Nodes that do not have the entry shape are skipped, so a
/// malformed reply cannot stop the worker.
pub fn parse_stream_entries(v: &StreamValue) -> (r: Vec<(String, String)>)
    ensures
        r@ == parsed_entries(*v),
{
    let mut out: Vec<(String, String)> = Vec::new();
    let streams = match v {
        StreamValue::Bulk(ss) => ss,
        _ => {
            return out;
        },
    };
    let n = streams.len();
    let ghost ss = streams@;
    proof {
        assert(ss.skip(0) =~= ss);
    }
    for i in 0..n
        invariant
            n == streams@.len(),
            ss == streams@,
            out@ + streams_pairs(ss.skip(i as int)) =~= streams_pairs(ss),
    {
        proof {
            assert(ss.skip(i as int)[0] == ss[i as int]);
            assert(ss.skip(i as int).skip(1) =~= ss.skip(i as int + 1));
        }
        match &streams[i] {
            StreamValue::Bulk(items) => {
                if items.len() >= 2 {
                    match &items[1] {
                        StreamValue::Bulk(entries) => {
                            let m = entries.len();
                            let ghost es = entries@;
                            let ghost before = out@;
                            proof {
                                assert(es.skip(0) =~= es);
                                assert(before + entries_pairs(es.skip(0)) =~= before
                                    + entries_pairs(es));
                            }
                            for j in 0..m
                                invariant
                                    m == entries@.len(),
                                    es == entries@,
                                    out@ + entries_pairs(es.skip(j as int)) =~= before
                                        + entries_pairs(es),
                            {
                                proof {
                                    assert(es.skip(j as int)[0] == es[j as int]);
                                    assert(es.skip(j as int).skip(1) =~= es.skip(j as int + 1));
                                }
                                match parse_one_entry(&entries[j]) {
                                    Some(p) => {
                                        out.push(p);
                                        proof {
                                            let rest = entries_pairs(es.skip(j as int + 1));
                                            assert(entries_pairs(es.skip(j as int)) =~= seq![
                                                out@.last(),
                                            ] + rest);
                                        }
                                    },
                                    None => {
                                    },
                                }
                            }
                            proof {
                                assert(es.skip(m as int) =~= Seq::<StreamValue>::empty());
                                assert(out@ + Seq::<(String, String)>::empty() =~= out@);
                                assert(stream_pairs(ss[i as int]) == entries_pairs(es));
                            }
                        },
                        _ => {
                        },
                    }
                }
            },
            _ => {
            },
        }
    }
    proof {
        assert(ss.skip(n as int) =~= Seq::<StreamValue>::empty());
        assert(out@ + Seq::<(String, String)>::empty() =~= out@);
    }
    out
}

/// The well-parsed `(id, value)` pairs of a batch, in order.
pub open spec fn parsed_pairs<T>(entries: Seq<(String, Option<T>)>) -> Seq<(String, T)>
    decreases entries.len(),
{
    if entries.len() == 0 {
        Seq::empty()
    } else {
        let rest = parsed_pairs(entries.skip(1));
        match entries[0].1 {
            Some(v) => seq![(entries[0].0, v)] + rest,
            None => rest,
        }
    }
}

/// The ids of the entries whose payloads did not parse, in order.
pub open spec fn poison_ids<T>(entries: Seq<(String, Option<T>)>) -> Seq<String>
    decreases entries.len(),
{
    if entries.len() == 0 {
        Seq::empty()
    } else {
        let rest = poison_ids(entries.skip(1));
        match entries[0].1 {
            Some(_) => rest,
            None => seq![entries[0].0] + rest,
        }
    }
}

/// Split a read batch by its parse results: the handler gets the entries
/// whose payloads parsed; the rest are poison pills, acknowledged without
/// processing so they cannot block the stream's head.
pub fn split_parsed<T>(entries: Vec<(String, Option<T>)>) -> (r: (Vec<(String, T)>, Vec<String>))
    ensures
        r.0@ == parsed_pairs(entries@),
        r.1@ == poison_ids(entries@),
{
    let ghost orig = entries@;
    let mut entries = entries;
    let mut batch: Vec<(String, T)> = Vec::new();
    let mut poison: Vec<String> = Vec::new();
    let ghost mut i: int = 0;
    proof {
        assert(orig.skip(0) =~= orig);
    }
    while entries.len() > 0
        invariant
            0 <= i <= orig.len(),
            entries@ == orig.skip(i),
            batch@ + parsed_pairs(orig.skip(i)) =~= parsed_pairs(orig),
            poison@ + poison_ids(orig.skip(i)) =~= poison_ids(orig),
        decreases entries.len(),
    {
        let (id, parsed) = entries.remove(0);
        proof {
            assert(orig.skip(i)[0] == (id, parsed));
            assert(orig.skip(i).skip(1) =~= orig.skip(i + 1));
            assert(entries@ =~= orig.skip(i + 1));
        }
        match parsed {
            Some(v) => {
                batch.push((id, v));
                proof {
                    let rest = parsed_pairs(orig.skip(i + 1));
                    assert(parsed_pairs(orig.skip(i)) =~= seq![batch@.last()] + rest);
                }
            },
            None => {
                poison.push(id);
                proof {
                    let rest = poison_ids(orig.skip(i + 1));
                    assert(poison_ids(orig.skip(i)) =~= seq![poison@.last()] + rest);
                }
            },
        }
        proof {
            i = i + 1;
        }
    }
    proof {
        assert(orig.skip(i) =~= Seq::<(String, Option<T>)>::empty());
        assert(batch@ + Seq::<(String, T)>::empty() =~= batch@);
        assert(poison@ + Seq::<String>::empty() =~= poison@);
    }
    (batch, poison)
}

/// One pass of the message worker over everything unacknowledged: the
/// batch goes to the store's idempotent insert, then every entry read is
/// acknowledged.  Whatever was published before a crash and not yet
/// acknowledged is in the batch, so it is persisted by this pass.
pub fn message_worker_pass(q: &mut Stream<InsertMessage>, store: &mut Message)
    requires
        old(q).wf(),
        old(store).wf(),
    ensures
        final(q).wf(),
        final(store).wf(),
        final(q).entries() == old(q).entries(),
        all_acked(final(q).states()),
        final(store).rows() == insert_new_msgs(
            old(store).rows(),
            unacked_payloads(old(q).entries(), old(q).states()),
        ),
{
    let n = q.entries.len();
    let ghost entries = q.entries@;
    let ghost states = q.states@;
    let mut batch: Vec<InsertMessage> = Vec::new();
    proof {
        assert(entries.skip(0) =~= entries);
        assert(states.skip(0) =~= states);
    }
    for i in 0..n
        invariant
            n == q.entries.len(),
            entries == q.entries@,
            states == q.states@,
            states.len() == entries.len(),
            batch@ + unacked_payloads(entries.skip(i as int), states.skip(i as int))
                =~= unacked_payloads(entries, states),
    {
        proof {
            assert(entries.skip(i as int)[0] == entries[i as int]);
            assert(states.skip(i as int)[0] == states[i as int]);
            assert(entries.skip(i as int).skip(1) =~= entries.skip(i as int + 1));
            assert(states.skip(i as int).skip(1) =~= states.skip(i as int + 1));
        }
        match q.states[i] {
            EntryState::Acked => {
            },
            _ => {
                batch.push(clone_msg(&q.entries[i].1));
                proof {
                    let rest = unacked_payloads(
                        entries.skip(i as int + 1),
                        states.skip(i as int + 1),
                    );
                    assert(unacked_payloads(entries.skip(i as int), states.skip(i as int))
                        =~= seq![entries[i as int].1] + rest);
                }
            },
        }
    }
    proof {
        assert(entries.skip(n as int) =~= Seq::<(u64, InsertMessage)>::empty());
        assert(batch@ + Seq::<InsertMessage>::empty() =~= batch@);
    }
    store.insert_many(batch);
    let mut acked: Vec<EntryState> = Vec::new();
    let m = q.states.len();
    for i in 0..m
        invariant
            acked@.len() == i,
            forall|j: int| 0 <= j < i ==> acked@[j] is Acked,
    {
        acked.push(EntryState::Acked);
    }
    q.states = acked;
}

fn clone_receipt(e: &Receipt) -> (r: Receipt)
    ensures
        r == *e,
{
    Receipt {
        message: e.message.clone(),
        user: e.user.clone(),
        delivered: e.delivered,
        read: e.read,
        reaction: e.reaction,
    }
}

/// One pass of the receipt worker: the unacknowledged events go to the
/// store's idempotent batch upsert under one transaction stamped `now`,
/// then everything read is acknowledged.
pub fn receipt_worker_pass(q: &mut Stream<Receipt>, store: &mut MessageReceipt, now: i64)
    requires
        old(q).wf(),
        old(store).wf(),
    ensures
        final(q).wf(),
        final(store).wf(),
        final(q).entries() == old(q).entries(),
        all_acked(final(q).states()),
        final(store).rows() == upsert_all(
            old(store).rows(),
            unacked_payloads(old(q).entries(), old(q).states()),
            now,
        ),
{
    let n = q.entries.len();
    let ghost entries = q.entries@;
    let ghost states = q.states@;
    let mut batch: Vec<Receipt> = Vec::new();
    proof {
        assert(entries.skip(0) =~= entries);
        assert(states.skip(0) =~= states);
    }
    for i in 0..n
        invariant
            n == q.entries.len(),
            entries == q.entries@,
            states == q.states@,
            states.len() == entries.len(),
            batch@ + unacked_payloads(entries.skip(i as int), states.skip(i as int))
                =~= unacked_payloads(entries, states),
    {
        proof {
            assert(entries.skip(i as int)[0] == entries[i as int]);
            assert(states.skip(i as int)[0] == states[i as int]);
            assert(entries.skip(i as int).skip(1) =~= entries.skip(i as int + 1));
            assert(states.skip(i as int).skip(1) =~= states.skip(i as int + 1));
        }
        match q.states[i] {
            EntryState::Acked => {
            },
            _ => {
                batch.push(clone_receipt(&q.entries[i].1));
                proof {
                    let rest = unacked_payloads(
                        entries.skip(i as int + 1),
                        states.skip(i as int + 1),
                    );
                    assert(unacked_payloads(entries.skip(i as int), states.skip(i as int))
                        =~= seq![entries[i as int].1] + rest);
                }
            },
        }
    }
    proof {
        assert(entries.skip(n as int) =~= Seq::<(u64, Receipt)>::empty());
        assert(batch@ + Seq::<Receipt>::empty() =~= batch@);
    }
    store.batch_upsert(batch, now);
    let mut acked: Vec<EntryState> = Vec::new();
    let m = q.states.len();
    for i in 0..m
        invariant
            acked@.len() == i,
            forall|j: int| 0 <= j < i ==> acked@[j] is Acked,
    {
        acked.push(EntryState::Acked);
    }
    q.states = acked;
}

/// The ids of a parsed batch, in order.
pub open spec fn batch_ids<T>(batch: Seq<(String, T)>) -> Seq<String>
    decreases batch.len(),
{
    if batch.len() == 0 {
        Seq::empty()
    } else {
        seq![batch[0].0] + batch_ids(batch.skip(1))
    }
}

/// The payloads of a parsed batch, in order.
pub open spec fn batch_payloads<T>(batch: Seq<(String, T)>) -> Seq<T>
    decreases batch.len(),
{
    if batch.len() == 0 {
        Seq::empty()
    } else {
        seq![batch[0].1] + batch_payloads(batch.skip(1))
    }
}

fn unzip_batch<T>(batch: Vec<(String, T)>) -> (r: (Vec<String>, Vec<T>))
    ensures
        r.0@ == batch_ids(batch@),
        r.1@ == batch_payloads(batch@),
{
    let ghost orig = batch@;
    let mut batch = batch;
    let mut ids: Vec<String> = Vec::new();
    let mut payloads: Vec<T> = Vec::new();
    let ghost mut i: int = 0;
    proof {
        assert(orig.skip(0) =~= orig);
    }
    while batch.len() > 0
        invariant
            0 <= i <= orig.len(),
            batch@ == orig.skip(i),
            ids@ + batch_ids(orig.skip(i)) =~= batch_ids(orig),
            payloads@ + batch_payloads(orig.skip(i)) =~= batch_payloads(orig),
        decreases batch.len(),
    {
        let (id, payload) = batch.remove(0);
        proof {
            assert(orig.skip(i)[0] == (id, payload));
            assert(orig.skip(i).skip(1) =~= orig.skip(i + 1));
            assert(batch@ =~= orig.skip(i + 1));
        }
        ids.push(id);
        payloads.push(payload);
        proof {
            assert(batch_ids(orig.skip(i)) =~= seq![ids@.last()] + batch_ids(orig.skip(i + 1)));
            assert(batch_payloads(orig.skip(i)) =~= seq![payloads@.last()] + batch_payloads(
                orig.skip(i + 1),
            ));
            i = i + 1;
        }
    }
    proof {
        assert(orig.skip(i) =~= Seq::<(String, T)>::empty());
        assert(ids@ + Seq::<String>::empty() =~= ids@);
        assert(payloads@ + Seq::<T>::empty() =~= payloads@);
    }
    (ids, payloads)
}

/// The message handler: unzip the batch, hand the envelopes to the
/// store's idempotent batch insert, and report every entry id as
/// processed — the whole transaction committed, so the whole batch may be
/// acknowledged.
pub fn message_handler(batch: Vec<(String, InsertMessage)>, store: &mut Message) -> (r: Vec<
    String,
>)
    requires
        old(store).wf(),
    ensures
        final(store).wf(),
        final(store).rows() == insert_new_msgs(old(store).rows(), batch_payloads(batch@)),
        r@ == batch_ids(batch@),
{
    let (ids, envelopes) = unzip_batch(batch);
    store.insert_many(envelopes);
    ids
}

/// The receipt handler: the batch upserted in order under one transaction
/// stamped `now`; every entry id is reported as processed.
pub fn receipt_handler(batch: Vec<(String, Receipt)>, store: &mut MessageReceipt, now: i64) -> (r:
    Vec<String>)
    requires
        old(store).wf(),
    ensures
        final(store).wf(),
        final(store).rows() == upsert_all(old(store).rows(), batch_payloads(batch@), now),
        r@ == batch_ids(batch@),
{
    let (ids, events) = unzip_batch(batch);
    store.batch_upsert(events, now);
    ids
}

proof fn lemma_insert_new_msgs_preserves_has(
    rows: Seq<InsertMessage>,
    batch: Seq<InsertMessage>,
    id: Seq<char>,
)
    requires
        has_msg_id(rows, id),
    ensures
        has_msg_id(insert_new_msgs(rows, batch), id),
    decreases batch.len(),
{
    if batch.len() > 0 {
        let rows2 = if has_msg_id(rows, batch[0].id@) {
            rows
        } else {
            rows.push(batch[0])
        };
        assert(has_msg_id(rows2, id)) by {
            let i = choose|i: int| 0 <= i < rows.len() && rows[i].id@ == id;
            assert(rows2[i].id@ == id);
        }
        lemma_insert_new_msgs_preserves_has(rows2, batch.skip(1), id);
    }
}

proof fn lemma_insert_new_msgs_covers(
    rows: Seq<InsertMessage>,
    batch: Seq<InsertMessage>,
    k: int,
)
    requires
        0 <= k < batch.len(),
    ensures
        has_msg_id(insert_new_msgs(rows, batch), batch[k].id@),
    decreases batch.len(),
{
    let rows2 = if has_msg_id(rows, batch[0].id@) {
        rows
    } else {
        rows.push(batch[0])
    };
    if k == 0 {
        assert(has_msg_id(rows2, batch[0].id@)) by {
            if !has_msg_id(rows, batch[0].id@) {
                assert(rows2[rows.len() as int].id@ == batch[0].id@);
            } else {
                let i = choose|i: int| 0 <= i < rows.len() && rows[i].id@ == batch[0].id@;
                assert(rows2[i].id@ == batch[0].id@);
            }
        }
        lemma_insert_new_msgs_preserves_has(rows2, batch.skip(1), batch[0].id@);
    } else {
        assert(batch.skip(1)[k - 1] == batch[k]);
        lemma_insert_new_msgs_covers(rows2, batch.skip(1), k - 1);
    }
}

proof fn lemma_unacked_contains(
    entries: Seq<(u64, InsertMessage)>,
    states: Seq<EntryState>,
    i: int,
)
    requires
        states.len() == entries.len(),
        0 <= i < entries.len(),
        !(states[i] is Acked),
    ensures
        exists|k: int|
            0 <= k < unacked_payloads(entries, states).len() && unacked_payloads(entries, states)[k]
                == entries[i].1,
    decreases i,
{
    let rest = unacked_payloads(entries.skip(1), states.skip(1));
    if i == 0 {
        assert(unacked_payloads(entries, states)[0] == entries[0].1);
    } else {
        assert(entries.skip(1)[i - 1] == entries[i]);
        assert(states.skip(1)[i - 1] == states[i]);
        lemma_unacked_contains(entries.skip(1), states.skip(1), i - 1);
        let k = choose|k: int| 0 <= k < rest.len() && rest[k] == entries.skip(1)[i - 1].1;
        if states[0] is Acked {
            assert(unacked_payloads(entries, states)[k] == entries[i].1);
        } else {
            assert(unacked_payloads(entries, states)[k + 1] == entries[i].1);
        }
    }
}

proof fn lemma_unacked_element_of(
    entries: Seq<(u64, InsertMessage)>,
    states: Seq<EntryState>,
    j: int,
)
    requires
        states.len() == entries.len(),
        0 <= j < unacked_payloads(entries, states).len(),
    ensures
        exists|i: int|
            0 <= i < entries.len() && (#[trigger] entries[i]).1 == unacked_payloads(
                entries,
                states,
            )[j],
    decreases entries.len(),
{
    let all = unacked_payloads(entries, states);
    let rest = unacked_payloads(entries.skip(1), states.skip(1));
    if states[0] is Acked {
        lemma_unacked_element_of(entries.skip(1), states.skip(1), j);
        let i = choose|i: int| 0 <= i < entries.skip(1).len() && entries.skip(1)[i].1 == rest[j];
        assert(entries[i + 1].1 == all[j]);
    } else {
        if j == 0 {
            assert(entries[0].1 == all[0]);
        } else {
            lemma_unacked_element_of(entries.skip(1), states.skip(1), j - 1);
            assert(all[j] == rest[j - 1]);
            let i = choose|i: int|
                0 <= i < entries.skip(1).len() && entries.skip(1)[i].1 == rest[j - 1];
            assert(entries[i + 1].1 == all[j]);
        }
    }
}

/// At-least-once, end to end: an envelope published before a worker crash
/// and not yet acknowledged is fetched, exactly once, by an unfiltered
/// retrieval of its mailbox once the worker's next pass has run — given
/// that every queue copy of its id is a true duplicate, which is what
/// redelivery produces.
pub proof fn lemma_published_is_fetchable(
    rows: Seq<InsertMessage>,
    entries: Seq<(u64, InsertMessage)>,
    states: Seq<EntryState>,
    i: int,
    f: crate::models::MessageFilters,
)
    requires
        msg_ids_unique(rows),
        states.len() == entries.len(),
        0 <= i < entries.len(),
        !(states[i] is Acked),
        !has_msg_id(rows, entries[i].1.id@),
        forall|j: int|
            0 <= j < entries.len() && (#[trigger] entries[j]).1.id@ == entries[i].1.id@
                ==> entries[j].1 == entries[i].1,
        f.created is None,
        f.reply_to is None,
        f.source is None,
        f.spec_offset() == 0,
        f.spec_limit() >= crate::store::filtered_msgs(
            insert_new_msgs(rows, unacked_payloads(entries, states)),
            entries[i].1.mbox@,
            f,
        ).len(),
    ensures
        ({
            let after_pass = insert_new_msgs(rows, unacked_payloads(entries, states));
            crate::store::retrieved_msgs(after_pass, entries[i].1.mbox@, f).contains(entries[i].1)
                && crate::store::count_msg_id(
                crate::store::retrieved_msgs(after_pass, entries[i].1.mbox@, f),
                entries[i].1.id@,
            ) == 1
        }),
{
    let m = entries[i].1;
    let batch = unacked_payloads(entries, states);
    lemma_unacked_contains(entries, states, i);
    assert(batch.contains(m));
    assert(forall|j: int| 0 <= j < batch.len() && (#[trigger] batch[j]).id@ == m.id@ ==> batch[j]
        == m) by {
        assert forall|j: int|
            0 <= j < batch.len() && (#[trigger] batch[j]).id@ == m.id@ implies batch[j] == m by {
            lemma_unacked_element_of(entries, states, j);
        }
    }
    crate::store::lemma_insert_new_msgs_contains(rows, batch, m);
    crate::store::lemma_insert_new_msgs_unique(rows, batch);
    crate::store::lemma_post_then_fetch(insert_new_msgs(rows, batch), m, f);
}

/// At-least-once: an entry published before a worker crash is not yet
/// acknowledged, so the worker's next full pass hands its envelope to the
/// idempotent insert, and the envelope is persisted.
pub proof fn lemma_at_least_once(
    rows: Seq<InsertMessage>,
    entries: Seq<(u64, InsertMessage)>,
    states: Seq<EntryState>,
    i: int,
)
    requires
        states.len() == entries.len(),
        0 <= i < entries.len(),
        !(states[i] is Acked),
    ensures
        has_msg_id(insert_new_msgs(rows, unacked_payloads(entries, states)), entries[i].1.id@),
{
    lemma_unacked_contains(entries, states, i);
    let batch = unacked_payloads(entries, states);
    let k = choose|k: int| 0 <= k < batch.len() && batch[k] == entries[i].1;
    lemma_insert_new_msgs_covers(rows, batch, k);
}

} // verus!
