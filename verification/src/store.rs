//! Verified model of the persistent store: the `messages` table with
//! idempotent batch insert and filtered retrieval, and the
//! `message_receipts` table with its monotone merge rule.
//!
//! The unverified chassis executes the same operations against a relational
//! database; these functions state and prove what those operations must do.

use vstd::prelude::*;

use crate::models::InsertMessage;
use crate::models::MessageFilters;

verus! {

/// A wall-clock timestamp in milliseconds since the epoch.
///
/// Relies on std::time::SystemTime::now and duration_since(UNIX_EPOCH):
/// the elapsed time since the epoch, kept in the non-negative range (a
/// clock reading earlier than the epoch answers zero).  Nothing further
/// can be promised of a clock.
#[verifier::external_body]
pub fn time_now() -> (r: i64)
    ensures
        r >= 0,
{
    match std::time::SystemTime::now().duration_since(std::time::UNIX_EPOCH) {
        Ok(t) => (t.as_millis() as u64 & 0x7fff_ffff_ffff_ffff) as i64,
        Err(_) => 0,
    }
}

/// True when some row in `rows` carries the envelope id `id`.
pub open spec fn has_msg_id(rows: Seq<InsertMessage>, id: Seq<char>) -> bool {
    exists|i: int| 0 <= i < rows.len() && rows[i].id@ == id
}

/// Number of rows in `rows` carrying the envelope id `id`.
pub open spec fn count_msg_id(rows: Seq<InsertMessage>, id: Seq<char>) -> nat
    decreases rows.len(),
{
    if rows.len() == 0 {
        0
    } else {
        (if rows[0].id@ == id {
            1nat
        } else {
            0nat
        }) + count_msg_id(rows.skip(1), id)
    }
}

/// Envelope ids are unique across the table.
pub open spec fn msg_ids_unique(rows: Seq<InsertMessage>) -> bool {
    forall|i: int, j: int| 0 <= i < j < rows.len() ==> rows[i].id@ != rows[j].id@
}

/// The table after a batch insert that ignores conflicts by id: each
/// envelope of `batch` is appended unless its id is already present.
pub open spec fn insert_new_msgs(
    rows: Seq<InsertMessage>,
    batch: Seq<InsertMessage>,
) -> Seq<InsertMessage>
    decreases batch.len(),
{
    if batch.len() == 0 {
        rows
    } else {
        let rows2 = if has_msg_id(rows, batch[0].id@) {
            rows
        } else {
            rows.push(batch[0])
        };
        insert_new_msgs(rows2, batch.skip(1))
    }
}

pub proof fn lemma_count_push(rows: Seq<InsertMessage>, m: InsertMessage, id: Seq<char>)
    ensures
        count_msg_id(rows.push(m), id) == count_msg_id(rows, id) + (if m.id@ == id {
            1nat
        } else {
            0nat
        }),
    decreases rows.len(),
{
    assert(rows.push(m)[0] == if rows.len() == 0 {
        m
    } else {
        rows[0]
    });
    if rows.len() == 0 {
        assert(rows.push(m).skip(1) =~= Seq::<InsertMessage>::empty());
        assert(count_msg_id(Seq::<InsertMessage>::empty(), id) == 0);
    } else {
        assert(rows.push(m).skip(1) =~= rows.skip(1).push(m));
        lemma_count_push(rows.skip(1), m, id);
    }
}

pub proof fn lemma_count_zero_iff_absent(rows: Seq<InsertMessage>, id: Seq<char>)
    ensures
        count_msg_id(rows, id) == 0 <==> !has_msg_id(rows, id),
    decreases rows.len(),
{
    if rows.len() > 0 {
        lemma_count_zero_iff_absent(rows.skip(1), id);
        if has_msg_id(rows, id) {
            let i = choose|i: int| 0 <= i < rows.len() && rows[i].id@ == id;
            if i > 0 {
                assert(rows.skip(1)[i - 1].id@ == id);
            }
        } else {
            assert(!has_msg_id(rows.skip(1), id)) by {
                if has_msg_id(rows.skip(1), id) {
                    let i = choose|i: int|
                        0 <= i < rows.skip(1).len() && rows.skip(1)[i].id@ == id;
                    assert(rows[i + 1].id@ == id);
                }
            }
        }
    }
}

pub proof fn lemma_unique_count_at_most_one(rows: Seq<InsertMessage>, id: Seq<char>)
    requires
        msg_ids_unique(rows),
    ensures
        count_msg_id(rows, id) <= 1,
        has_msg_id(rows, id) ==> count_msg_id(rows, id) == 1,
    decreases rows.len(),
{
    if rows.len() > 0 {
        assert(msg_ids_unique(rows.skip(1))) by {
            assert forall|i: int, j: int|
                0 <= i < j < rows.skip(1).len() implies rows.skip(1)[i].id@
                != rows.skip(1)[j].id@ by {
                assert(rows[i + 1].id@ == rows.skip(1)[i].id@);
                assert(rows[j + 1].id@ == rows.skip(1)[j].id@);
            }
        }
        lemma_unique_count_at_most_one(rows.skip(1), id);
        if rows[0].id@ == id {
            assert(!has_msg_id(rows.skip(1), id)) by {
                if has_msg_id(rows.skip(1), id) {
                    let i = choose|i: int|
                        0 <= i < rows.skip(1).len() && rows.skip(1)[i].id@ == id;
                    assert(rows[i + 1].id@ == id);
                }
            }
            lemma_count_zero_iff_absent(rows.skip(1), id);
        } else {
            if has_msg_id(rows, id) {
                let i = choose|i: int| 0 <= i < rows.len() && rows[i].id@ == id;
                assert(rows.skip(1)[i - 1].id@ == id);
            }
        }
    }
}

/// The `messages` table.  Rows are unique by envelope id; a duplicate
/// ingestion (expected under at-least-once delivery) is ignored.
pub struct Message {
    rows: Vec<InsertMessage>,
}

impl Message {
    pub closed spec fn rows(self) -> Seq<InsertMessage> {
        self.rows@
    }

    /// Well-formed: envelope ids are unique.
    pub open spec fn wf(self) -> bool {
        msg_ids_unique(self.rows())
    }

    pub fn new() -> (r: Message)
        ensures
            r.wf(),
            r.rows() == Seq::<InsertMessage>::empty(),
    {
        Message { rows: Vec::new() }
    }

    /// True when a row with envelope id `id` is stored.
    pub fn has_id(&self, id: &String) -> (r: bool)
        ensures
            r == has_msg_id(self.rows(), id@),
    {
        let n = self.rows.len();
        for i in 0..n
            invariant
                n == self.rows.len(),
                forall|j: int| 0 <= j < i ==> self.rows@[j].id@ != id@,
        {
            if self.rows[i].id.eq(id) {
                return true;
            }
        }
        false
    }

    /// True when the stored row with id `id` has source `user`: the
    /// ownership check behind receipt fetching.
    pub fn is_sender(&self, id: &String, user: &String) -> (r: bool)
        ensures
            r == exists|i: int|
                0 <= i < self.rows().len() && self.rows()[i].id@ == id@
                    && self.rows()[i].source@ == user@,
    {
        let n = self.rows.len();
        for i in 0..n
            invariant
                n == self.rows.len(),
                forall|j: int|
                    0 <= j < i ==> !(self.rows@[j].id@ == id@ && self.rows@[j].source@
                        == user@),
        {
            if self.rows[i].id.eq(id) && self.rows[i].source.eq(user) {
                return true;
            }
        }
        false
    }

    /// Batch insert: append every envelope whose id is not yet stored,
    /// in batch order; ignore the rest.  This is what makes duplicate
    /// publishes collapse to one row.
    pub fn insert_many(&mut self, msgs: Vec<InsertMessage>)
        requires
            old(self).wf(),
        ensures
            final(self).wf(),
            final(self).rows() == insert_new_msgs(old(self).rows(), msgs@),
    {
        let ghost orig = self.rows@;
        let ghost batch = msgs@;
        let n = msgs.len();
        let mut msgs = msgs;
        let ghost mut i: int = 0;
        while msgs.len() > 0
            invariant
                msg_ids_unique(self.rows@),
                0 <= i <= batch.len(),
                msgs@ == batch.skip(i),
                insert_new_msgs(self.rows@, batch.skip(i)) == insert_new_msgs(orig, batch),
            decreases msgs.len(),
        {
            let m = msgs.remove(0);
            proof {
                assert(batch.skip(i)[0] == m);
                assert(batch.skip(i).skip(1) =~= batch.skip(i + 1));
                assert(msgs@ =~= batch.skip(i + 1));
            }
            let ghost pre = self.rows@;
            if !self.has_id(&m.id) {
                proof {
                    assert forall|a: int, b: int|
                        0 <= a < b < pre.push(m).len() implies pre.push(m)[a].id@
                        != pre.push(m)[b].id@ by {
                        if b < pre.len() {
                        } else {
                            assert(pre.push(m)[b] == m);
                            assert(!has_msg_id(pre, m.id@));
                            assert(pre.push(m)[a] == pre[a]);
                        }
                    }
                }
                self.rows.push(m);
            }
            proof {
                i = i + 1;
            }
        }
        proof {
            assert(batch.skip(i) =~= Seq::<InsertMessage>::empty());
        }
    }
}

/// True when `m` passes the retrieval filters for mailbox `mbox`: every
/// provided filter constrains.
pub open spec fn msg_matches(m: InsertMessage, mbox: Seq<char>, f: MessageFilters) -> bool {
    &&& m.mbox@ == mbox
    &&& match f.created {
        Some(c) => m.created == c,
        None => true,
    }
    &&& match f.reply_to {
        Some(r) => m.reply_to == Some(r),
        None => true,
    }
    &&& match f.source {
        Some(s) => m.source@ == s@,
        None => true,
    }
}

/// The rows passing the filters, in stored order.
pub open spec fn filtered_msgs(
    rows: Seq<InsertMessage>,
    mbox: Seq<char>,
    f: MessageFilters,
) -> Seq<InsertMessage>
    decreases rows.len(),
{
    if rows.len() == 0 {
        Seq::empty()
    } else {
        let rest = filtered_msgs(rows.skip(1), mbox, f);
        if msg_matches(rows[0], mbox, f) {
            seq![rows[0]] + rest
        } else {
            rest
        }
    }
}

/// `m` placed into the `created`-sorted sequence `sorted`, after every
/// element whose `created` is not greater: the stable insertion step.
pub open spec fn insert_by_created(
    sorted: Seq<InsertMessage>,
    m: InsertMessage,
) -> Seq<InsertMessage>
    decreases sorted.len(),
{
    if sorted.len() == 0 {
        seq![m]
    } else if sorted.last().created <= m.created {
        sorted.push(m)
    } else {
        insert_by_created(sorted.drop_last(), m).push(sorted.last())
    }
}

/// Stable sort by `created`, ascending: the retrieval order.
pub open spec fn sort_by_created(s: Seq<InsertMessage>) -> Seq<InsertMessage>
    decreases s.len(),
{
    if s.len() == 0 {
        Seq::empty()
    } else {
        insert_by_created(sort_by_created(s.drop_last()), s.last())
    }
}

/// A page of `s`: skip `offset`, keep at most `limit`.  A negative offset
/// reads from the start; a negative limit returns the whole remainder.
pub open spec fn page<T>(s: Seq<T>, limit: int, offset: int) -> Seq<T> {
    let off = if offset < 0 {
        0int
    } else if offset > s.len() {
        s.len() as int
    } else {
        offset
    };
    let rest = s.skip(off);
    if limit < 0 {
        rest
    } else if limit > rest.len() {
        rest
    } else {
        rest.take(limit)
    }
}

/// What retrieval returns: the matching rows, sorted by `created`
/// ascending, then paged.
pub open spec fn retrieved_msgs(
    rows: Seq<InsertMessage>,
    mbox: Seq<char>,
    f: MessageFilters,
) -> Seq<InsertMessage> {
    page(sort_by_created(filtered_msgs(rows, mbox, f)), f.spec_limit(), f.spec_offset())
}

pub(crate) fn clone_msg(m: &InsertMessage) -> (r: InsertMessage)
    ensures
        r == *m,
{
    InsertMessage {
        source: m.source.clone(),
        mbox: m.mbox.clone(),
        text: m.text.clone(),
        reply_to: m.reply_to,
        created: m.created,
        id: m.id.clone(),
    }
}

proof fn lemma_count_insert_by_created(s: Seq<InsertMessage>, m: InsertMessage, id: Seq<char>)
    ensures
        count_msg_id(insert_by_created(s, m), id) == count_msg_id(s, id) + (if m.id@ == id {
            1nat
        } else {
            0nat
        }),
    decreases s.len(),
{
    if s.len() == 0 {
        assert(insert_by_created(s, m) =~= Seq::<InsertMessage>::empty().push(m));
        lemma_count_push(Seq::<InsertMessage>::empty(), m, id);
    } else if s.last().created <= m.created {
        lemma_count_push(s, m, id);
    } else {
        lemma_count_insert_by_created(s.drop_last(), m, id);
        lemma_count_push(insert_by_created(s.drop_last(), m), s.last(), id);
        assert(s =~= s.drop_last().push(s.last()));
        lemma_count_push(s.drop_last(), s.last(), id);
    }
}

proof fn lemma_count_sort(s: Seq<InsertMessage>, id: Seq<char>)
    ensures
        count_msg_id(sort_by_created(s), id) == count_msg_id(s, id),
    decreases s.len(),
{
    if s.len() > 0 {
        lemma_count_sort(s.drop_last(), id);
        lemma_count_insert_by_created(sort_by_created(s.drop_last()), s.last(), id);
        assert(s =~= s.drop_last().push(s.last()));
        lemma_count_push(s.drop_last(), s.last(), id);
    }
}

proof fn lemma_insert_by_created_multiset(s: Seq<InsertMessage>, m: InsertMessage)
    ensures
        insert_by_created(s, m).to_multiset() =~= s.to_multiset().insert(m),
    decreases s.len(),
{
    broadcast use vstd::seq_lib::group_to_multiset_ensures;

    if s.len() == 0 {
        assert(insert_by_created(s, m) =~= Seq::<InsertMessage>::empty().push(m));
    } else if s.last().created <= m.created {
    } else {
        lemma_insert_by_created_multiset(s.drop_last(), m);
        assert(s =~= s.drop_last().push(s.last()));
    }
}

proof fn lemma_sort_multiset(s: Seq<InsertMessage>)
    ensures
        sort_by_created(s).to_multiset() =~= s.to_multiset(),
    decreases s.len(),
{
    broadcast use vstd::seq_lib::group_to_multiset_ensures;

    if s.len() > 0 {
        lemma_sort_multiset(s.drop_last());
        lemma_insert_by_created_multiset(sort_by_created(s.drop_last()), s.last());
        assert(s =~= s.drop_last().push(s.last()));
    }
}

proof fn lemma_filtered_contains(
    rows: Seq<InsertMessage>,
    mbox: Seq<char>,
    f: MessageFilters,
    m: InsertMessage,
)
    requires
        rows.contains(m),
        msg_matches(m, mbox, f),
    ensures
        filtered_msgs(rows, mbox, f).contains(m),
    decreases rows.len(),
{
    if rows[0] == m {
        assert(filtered_msgs(rows, mbox, f)[0] == m);
    } else {
        let i = choose|i: int| 0 <= i < rows.len() && rows[i] == m;
        assert(rows.skip(1)[i - 1] == m);
        lemma_filtered_contains(rows.skip(1), mbox, f, m);
        let rest = filtered_msgs(rows.skip(1), mbox, f);
        let j = choose|j: int| 0 <= j < rest.len() && rest[j] == m;
        if msg_matches(rows[0], mbox, f) {
            assert(filtered_msgs(rows, mbox, f)[j + 1] == m);
        }
    }
}

proof fn lemma_filtered_count_le(
    rows: Seq<InsertMessage>,
    mbox: Seq<char>,
    f: MessageFilters,
    id: Seq<char>,
)
    ensures
        count_msg_id(filtered_msgs(rows, mbox, f), id) <= count_msg_id(rows, id),
    decreases rows.len(),
{
    if rows.len() > 0 {
        lemma_filtered_count_le(rows.skip(1), mbox, f, id);
        if msg_matches(rows[0], mbox, f) {
            let rest = filtered_msgs(rows.skip(1), mbox, f);
            assert(filtered_msgs(rows, mbox, f) =~= seq![rows[0]] + rest);
            assert((seq![rows[0]] + rest).skip(1) =~= rest);
            assert((seq![rows[0]] + rest)[0] == rows[0]);
        }
    }
}

proof fn lemma_contains_count_ge_one(rows: Seq<InsertMessage>, m: InsertMessage)
    requires
        rows.contains(m),
    ensures
        count_msg_id(rows, m.id@) >= 1,
    decreases rows.len(),
{
    if rows[0] == m {
    } else {
        let i = choose|i: int| 0 <= i < rows.len() && rows[i] == m;
        assert(rows.skip(1)[i - 1] == m);
        lemma_contains_count_ge_one(rows.skip(1), m);
    }
}

impl Message {
    /// Place `m` into the `created`-sorted vector `v`, keeping stability.
    fn insert_sorted(v: &mut Vec<InsertMessage>, m: InsertMessage)
        ensures
            final(v)@ == insert_by_created(old(v)@, m),
    {
        let mut i: usize = v.len();
        while i > 0 && v[i - 1].created > m.created
            invariant
                0 <= i <= v.len(),
                v@ == old(v)@,
                forall|k: int| i <= k < v.len() ==> v@[k].created > m.created,
            decreases i,
        {
            i = i - 1;
        }
        let ghost p = i as int;
        v.insert(i, m);
        proof {
            lemma_insert_by_created_at(old(v)@, m, p);
            assert(v@ =~= old(v)@.take(p) + seq![m] + old(v)@.skip(p));
        }
    }

    /// Sort `input` by `created`, ascending and stable.
    fn sort_msgs(input: Vec<InsertMessage>) -> (r: Vec<InsertMessage>)
        ensures
            r@ == sort_by_created(input@),
    {
        let ghost orig = input@;
        let mut input = input;
        let mut out: Vec<InsertMessage> = Vec::new();
        while input.len() > 0
            invariant
                orig.len() >= input.len(),
                input@ =~= orig.skip(orig.len() - input@.len()),
                out@ == sort_by_created(orig.take(orig.len() - input@.len())),
            decreases input.len(),
        {
            let ghost k = orig.len() - input@.len();
            let m = input.remove(0);
            proof {
                assert(m == orig[k]);
                assert(input@ =~= orig.skip(k + 1));
                assert(orig.take(k + 1).drop_last() =~= orig.take(k));
                assert(orig.take(k + 1).last() == orig[k]);
            }
            Self::insert_sorted(&mut out, m);
        }
        proof {
            assert(orig.take(orig.len() as int) =~= orig);
        }
        out
    }

    /// Retrieve the page of stored messages for mailbox `mbox` that pass
    /// the filters, ordered by `created` ascending.
    pub fn retrieve(&self, mbox: &String, f: &MessageFilters) -> (r: Vec<InsertMessage>)
        ensures
            r@ == retrieved_msgs(self.rows(), mbox@, *f),
    {
        let mut matched: Vec<InsertMessage> = Vec::new();
        let n = self.rows.len();
        let ghost rows = self.rows@;
        proof {
            assert(rows.skip(0) =~= rows);
        }
        for i in 0..n
            invariant
                n == self.rows.len(),
                rows == self.rows@,
                matched@ + filtered_msgs(rows.skip(i as int), mbox@, *f) =~= filtered_msgs(
                    rows,
                    mbox@,
                    *f,
                ),
        {
            let m = &self.rows[i];
            proof {
                assert(rows.skip(i as int)[0] == rows[i as int]);
                assert(rows.skip(i as int).skip(1) =~= rows.skip(i as int + 1));
            }
            let hit = m.mbox.eq(mbox) && (match f.created {
                Some(c) => m.created == c,
                None => true,
            }) && (match f.reply_to {
                Some(r) => match m.reply_to {
                    Some(x) => x == r,
                    None => false,
                },
                None => true,
            }) && (match &f.source {
                Some(s) => m.source.eq(s),
                None => true,
            });
            if hit {
                matched.push(clone_msg(m));
                proof {
                    let rest = filtered_msgs(rows.skip(i as int + 1), mbox@, *f);
                    assert(filtered_msgs(rows.skip(i as int), mbox@, *f) =~= seq![rows[i as int]]
                        + rest);
                }
            }
        }
        proof {
            assert(rows.skip(n as int) =~= Seq::<InsertMessage>::empty());
            assert(matched@ + Seq::<InsertMessage>::empty() =~= matched@);
        }
        let mut sorted = Self::sort_msgs(matched);
        let limit = f.limit();
        let offset = f.offset();
        let off: usize = if offset < 0 {
            0
        } else if offset as usize > sorted.len() {
            sorted.len()
        } else {
            offset as usize
        };
        let mut rest = sorted.split_off(off);
        if limit >= 0 && (limit as usize) < rest.len() {
            rest.truncate(limit as usize);
        }
        proof {
            let s = sort_by_created(filtered_msgs(rows, mbox@, *f));
            assert(rest@ =~= page(s, f.spec_limit(), f.spec_offset()));
        }
        rest
    }
}

proof fn lemma_insert_by_created_at(s: Seq<InsertMessage>, m: InsertMessage, p: int)
    requires
        0 <= p <= s.len(),
        forall|k: int| p <= k < s.len() ==> s[k].created > m.created,
        p > 0 ==> s[p - 1].created <= m.created,
    ensures
        insert_by_created(s, m) == s.take(p) + seq![m] + s.skip(p),
    decreases s.len(),
{
    if s.len() == 0 {
        assert(insert_by_created(s, m) =~= s.take(0) + seq![m] + s.skip(0));
    } else if s.last().created <= m.created {
        assert(p == s.len());
        assert(s.take(p) =~= s);
        assert(s.skip(p) =~= Seq::<InsertMessage>::empty());
        assert(s.push(m) =~= s.take(p) + seq![m] + s.skip(p));
    } else {
        assert(p < s.len());
        lemma_insert_by_created_at(s.drop_last(), m, p);
        assert(insert_by_created(s.drop_last(), m).push(s.last()) =~= s.take(p) + seq![m]
            + s.skip(p)) by {
            assert(s.drop_last().take(p) =~= s.take(p));
            assert(s.drop_last().skip(p).push(s.last()) =~= s.skip(p));
        }
    }
}

proof fn lemma_count_split(s: Seq<InsertMessage>, id: Seq<char>, n: int)
    requires
        0 <= n <= s.len(),
    ensures
        count_msg_id(s, id) == count_msg_id(s.take(n), id) + count_msg_id(s.skip(n), id),
    decreases n,
{
    if n == 0 {
        assert(s.take(0) =~= Seq::<InsertMessage>::empty());
        assert(s.skip(0) =~= s);
        assert(count_msg_id(Seq::<InsertMessage>::empty(), id) == 0);
    } else {
        assert(s.take(n)[0] == s[0]);
        assert(s.take(n).skip(1) =~= s.skip(1).take(n - 1));
        assert(s.skip(n) =~= s.skip(1).skip(n - 1));
        lemma_count_split(s.skip(1), id, n - 1);
    }
}

/// Post then fetch, for any page: an envelope that is persisted, passes
/// the provided filters, and sits within the requested window of the
/// sorted matches (at position `k`) is returned by the fetch, and
/// returned exactly once.
pub proof fn lemma_post_then_fetch_windowed(
    rows: Seq<InsertMessage>,
    m: InsertMessage,
    f: MessageFilters,
    k: int,
)
    requires
        msg_ids_unique(rows),
        rows.contains(m),
        msg_matches(m, m.mbox@, f),
        0 <= k < sort_by_created(filtered_msgs(rows, m.mbox@, f)).len(),
        sort_by_created(filtered_msgs(rows, m.mbox@, f))[k] == m,
        (if f.spec_offset() < 0 {
            0int
        } else {
            f.spec_offset()
        }) <= k,
        f.spec_limit() < 0 || k < (if f.spec_offset() < 0 {
            0int
        } else {
            f.spec_offset()
        }) + f.spec_limit(),
    ensures
        retrieved_msgs(rows, m.mbox@, f).contains(m),
        count_msg_id(retrieved_msgs(rows, m.mbox@, f), m.id@) == 1,
{
    let filtered = filtered_msgs(rows, m.mbox@, f);
    let sorted = sort_by_created(filtered);
    lemma_filtered_contains(rows, m.mbox@, f, m);
    lemma_contains_count_ge_one(filtered, m);
    lemma_filtered_count_le(rows, m.mbox@, f, m.id@);
    lemma_unique_count_at_most_one(rows, m.id@);
    lemma_count_sort(filtered, m.id@);
    assert(count_msg_id(sorted, m.id@) == 1);
    let off = if f.spec_offset() < 0 {
        0int
    } else {
        f.spec_offset()
    };
    assert(off <= sorted.len());
    let rest = sorted.skip(off);
    lemma_count_split(sorted, m.id@, off);
    assert(count_msg_id(rest, m.id@) <= 1);
    assert(rest[k - off] == m);
    let result = retrieved_msgs(rows, m.mbox@, f);
    let lim = f.spec_limit();
    if lim < 0 || lim > rest.len() {
        assert(result == rest);
        assert(result.contains(m));
    } else {
        assert(result == rest.take(lim));
        assert(k - off < lim);
        assert(result[k - off] == m);
        assert(result.contains(m));
        lemma_count_split(rest, m.id@, lim);
    }
    lemma_contains_count_ge_one(result, m);
}

/// Post then fetch: once an envelope that passes the filters is
/// persisted, a retrieval on its mailbox from offset 0 with a page large
/// enough for every match returns it, and returns it exactly once.
pub proof fn lemma_post_then_fetch(rows: Seq<InsertMessage>, m: InsertMessage, f: MessageFilters)
    requires
        msg_ids_unique(rows),
        rows.contains(m),
        msg_matches(m, m.mbox@, f),
        f.spec_offset() == 0,
        f.spec_limit() >= filtered_msgs(rows, m.mbox@, f).len(),
    ensures
        retrieved_msgs(rows, m.mbox@, f).contains(m),
        count_msg_id(retrieved_msgs(rows, m.mbox@, f), m.id@) == 1,
{
    broadcast use vstd::seq_lib::group_to_multiset_ensures;

    let filtered = filtered_msgs(rows, m.mbox@, f);
    let sorted = sort_by_created(filtered);
    lemma_filtered_contains(rows, m.mbox@, f, m);
    lemma_sort_multiset(filtered);
    assert(sorted.contains(m)) by {
        assert(filtered.to_multiset().count(m) > 0);
        assert(sorted.to_multiset().count(m) > 0);
    }
    assert(sorted.len() == filtered.len()) by {
        assert(sorted.to_multiset().len() == filtered.to_multiset().len());
    }
    let k = choose|k: int| 0 <= k < sorted.len() && sorted[k] == m;
    lemma_post_then_fetch_windowed(rows, m, f, k);
}

/// Duplicate publish then fetch: ingesting the same fresh envelope twice
/// leaves one row, and any page window holding its sorted position
/// returns it exactly once; no receipt is touched, as the message worker
/// never writes receipts.
pub proof fn lemma_duplicate_publish_then_fetch(
    rows: Seq<InsertMessage>,
    m: InsertMessage,
    f: MessageFilters,
    k: int,
)
    requires
        msg_ids_unique(rows),
        !has_msg_id(rows, m.id@),
        msg_matches(m, m.mbox@, f),
        0 <= k < sort_by_created(
            filtered_msgs(insert_new_msgs(rows, seq![m, m]), m.mbox@, f),
        ).len(),
        sort_by_created(filtered_msgs(insert_new_msgs(rows, seq![m, m]), m.mbox@, f))[k] == m,
        (if f.spec_offset() < 0 {
            0int
        } else {
            f.spec_offset()
        }) <= k,
        f.spec_limit() < 0 || k < (if f.spec_offset() < 0 {
            0int
        } else {
            f.spec_offset()
        }) + f.spec_limit(),
    ensures
        insert_new_msgs(rows, seq![m, m]) == rows.push(m),
        retrieved_msgs(insert_new_msgs(rows, seq![m, m]), m.mbox@, f).contains(m),
        count_msg_id(retrieved_msgs(insert_new_msgs(rows, seq![m, m]), m.mbox@, f), m.id@) == 1,
{
    lemma_idempotent_persistence(rows, m);
    let once = seq![m];
    let none = Seq::<InsertMessage>::empty();
    assert(once.skip(1) =~= none);
    assert(once[0] == m);
    assert(insert_new_msgs(rows, none) == rows);
    assert(insert_new_msgs(rows.push(m), none) == rows.push(m));
    assert(insert_new_msgs(rows, once) == rows.push(m));
    let after = rows.push(m);
    assert(msg_ids_unique(after)) by {
        assert forall|a: int, b: int| 0 <= a < b < after.len() implies after[a].id@
            != after[b].id@ by {
            if b < rows.len() {
            } else {
                assert(after[a] == rows[a]);
                assert(after[b] == m);
            }
        }
    }
    assert(after[after.len() - 1] == m);
    assert(after.contains(m));
    lemma_post_then_fetch_windowed(after, m, f, k);
}

/// Batch insert preserves id uniqueness.
pub proof fn lemma_insert_new_msgs_unique(rows: Seq<InsertMessage>, batch: Seq<InsertMessage>)
    requires
        msg_ids_unique(rows),
    ensures
        msg_ids_unique(insert_new_msgs(rows, batch)),
    decreases batch.len(),
{
    if batch.len() > 0 {
        let rows2 = if has_msg_id(rows, batch[0].id@) {
            rows
        } else {
            rows.push(batch[0])
        };
        assert(msg_ids_unique(rows2)) by {
            if !has_msg_id(rows, batch[0].id@) {
                assert forall|a: int, b: int|
                    0 <= a < b < rows2.len() implies rows2[a].id@ != rows2[b].id@ by {
                    if b < rows.len() {
                    } else {
                        assert(rows2[a] == rows[a]);
                        assert(rows2[b] == batch[0]);
                    }
                }
            }
        }
        lemma_insert_new_msgs_unique(rows2, batch.skip(1));
    }
}

pub proof fn lemma_insert_new_msgs_preserves_contains(
    rows: Seq<InsertMessage>,
    batch: Seq<InsertMessage>,
    m: InsertMessage,
)
    requires
        rows.contains(m),
    ensures
        insert_new_msgs(rows, batch).contains(m),
    decreases batch.len(),
{
    if batch.len() > 0 {
        let rows2 = if has_msg_id(rows, batch[0].id@) {
            rows
        } else {
            rows.push(batch[0])
        };
        assert(rows2.contains(m)) by {
            let i = choose|i: int| 0 <= i < rows.len() && rows[i] == m;
            assert(rows2[i] == m);
        }
        lemma_insert_new_msgs_preserves_contains(rows2, batch.skip(1), m);
    }
}

/// A batch whose copies of `m.id` all equal `m` leaves exactly `m` in the
/// table when the id was free: what at-least-once redelivery produces.
pub proof fn lemma_insert_new_msgs_contains(
    rows: Seq<InsertMessage>,
    batch: Seq<InsertMessage>,
    m: InsertMessage,
)
    requires
        !has_msg_id(rows, m.id@),
        batch.contains(m),
        forall|j: int| 0 <= j < batch.len() && batch[j].id@ == m.id@ ==> batch[j] == m,
    ensures
        insert_new_msgs(rows, batch).contains(m),
    decreases batch.len(),
{
    if batch[0].id@ == m.id@ {
        assert(batch[0] == m);
        let pushed = rows.push(m);
        assert(pushed[pushed.len() - 1] == m);
        assert(pushed.contains(m));
        lemma_insert_new_msgs_preserves_contains(pushed, batch.skip(1), m);
    } else {
        let rows2 = if has_msg_id(rows, batch[0].id@) {
            rows
        } else {
            rows.push(batch[0])
        };
        assert(!has_msg_id(rows2, m.id@)) by {
            if has_msg_id(rows2, m.id@) {
                let i = choose|i: int| 0 <= i < rows2.len() && rows2[i].id@ == m.id@;
                if i < rows.len() {
                    assert(rows[i].id@ == m.id@);
                } else {
                    assert(rows2[i] == batch[0]);
                }
            }
        }
        assert(batch.skip(1).contains(m)) by {
            let k = choose|k: int| 0 <= k < batch.len() && batch[k] == m;
            assert(k != 0);
            assert(batch.skip(1)[k - 1] == m);
        }
        assert(forall|j: int|
            0 <= j < batch.skip(1).len() && (#[trigger] batch.skip(1)[j]).id@ == m.id@
                ==> batch.skip(1)[j] == m) by {
            assert forall|j: int|
                0 <= j < batch.skip(1).len() && (#[trigger] batch.skip(1)[j]).id@
                == m.id@ implies batch.skip(1)[j] == m by {
                assert(batch.skip(1)[j] == batch[j + 1]);
            }
        }
        lemma_insert_new_msgs_contains(rows2, batch.skip(1), m);
    }
}

/// Idempotent persistence: publishing the same envelope twice yields
/// exactly one row.  Ingesting `[m, m]` leaves the table exactly as
/// ingesting `[m]` alone, and afterwards exactly one row carries `m.id`.
pub proof fn lemma_idempotent_persistence(rows: Seq<InsertMessage>, m: InsertMessage)
    requires
        msg_ids_unique(rows),
    ensures
        insert_new_msgs(rows, seq![m, m]) == insert_new_msgs(rows, seq![m]),
        count_msg_id(insert_new_msgs(rows, seq![m]), m.id@) == 1,
{
    let once = seq![m];
    let twice = seq![m, m];
    let none = Seq::<InsertMessage>::empty();
    assert(once.skip(1) =~= none);
    assert(twice.skip(1) =~= once);
    assert(once[0] == m && twice[0] == m);
    assert(insert_new_msgs(rows, none) == rows);
    if has_msg_id(rows, m.id@) {
        assert(insert_new_msgs(rows, once) == insert_new_msgs(rows, none));
        assert(insert_new_msgs(rows, twice) == insert_new_msgs(rows, once));
        lemma_unique_count_at_most_one(rows, m.id@);
    } else {
        let pushed = rows.push(m);
        assert(insert_new_msgs(pushed, none) == pushed);
        assert(insert_new_msgs(rows, once) == insert_new_msgs(pushed, none));
        assert(pushed[pushed.len() - 1].id@ == m.id@);
        assert(has_msg_id(pushed, m.id@));
        assert(insert_new_msgs(rows, twice) == insert_new_msgs(pushed, once));
        assert(insert_new_msgs(pushed, once) == pushed);
        lemma_count_push(rows, m, m.id@);
        lemma_count_zero_iff_absent(rows, m.id@);
    }
}

} // verus!
