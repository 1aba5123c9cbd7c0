//! Verified model of the `message_receipts` table: idempotent upsert with
//! the monotone merge rule, batch upsert, and per-message retrieval.
//!
//! Merge rule: `delivered_at` and `read_at` keep the first non-null value
//! ever written (they never regress); `reaction` is last-non-null-writer
//! wins.  Rows are unique on `(message, user)`.

use vstd::prelude::*;

use crate::models::Receipt;
use crate::models::RetrieveReceipt;

verus! {

/// True when `row` is the receipt row for `(msg, user)`.
pub open spec fn rcpt_key_is(row: RetrieveReceipt, msg: Seq<char>, user: Seq<char>) -> bool {
    row.message@ == msg && row.user@ == user
}

/// True when some row carries the key `(msg, user)`.
pub open spec fn has_rcpt(rows: Seq<RetrieveReceipt>, msg: Seq<char>, user: Seq<char>) -> bool {
    exists|i: int| 0 <= i < rows.len() && rcpt_key_is(rows[i], msg, user)
}

/// Keys `(message, user)` are unique across the table.
pub open spec fn rcpt_keys_unique(rows: Seq<RetrieveReceipt>) -> bool {
    forall|i: int, j: int|
        0 <= i < j < rows.len() ==> !(rows[i].message@ == rows[j].message@ && rows[i].user@
            == rows[j].user@)
}

/// The row a receipt event creates when no row for its key exists yet.
pub open spec fn fresh_receipt(e: Receipt, now: i64) -> RetrieveReceipt {
    RetrieveReceipt {
        message: e.message,
        user: e.user,
        delivered_at: if e.delivered {
            Some(now)
        } else {
            None
        },
        read_at: if e.read {
            Some(now)
        } else {
            None
        },
        reaction: e.reaction,
    }
}

/// The monotone merge of an incoming event into an existing row.
pub open spec fn merge_receipt(row: RetrieveReceipt, e: Receipt, now: i64) -> RetrieveReceipt {
    RetrieveReceipt {
        message: row.message,
        user: row.user,
        delivered_at: if row.delivered_at is Some {
            row.delivered_at
        } else if e.delivered {
            Some(now)
        } else {
            None
        },
        read_at: if row.read_at is Some {
            row.read_at
        } else if e.read {
            Some(now)
        } else {
            None
        },
        reaction: if e.reaction is Some {
            e.reaction
        } else {
            row.reaction
        },
    }
}

/// The table after one upsert: the first row with the event's key is
/// merged in place; absent a match, a fresh row is appended.
pub open spec fn upsert_rcpt(
    rows: Seq<RetrieveReceipt>,
    e: Receipt,
    now: i64,
) -> Seq<RetrieveReceipt>
    decreases rows.len(),
{
    if rows.len() == 0 {
        seq![fresh_receipt(e, now)]
    } else if rcpt_key_is(rows[0], e.message@, e.user@) {
        seq![merge_receipt(rows[0], e, now)] + rows.skip(1)
    } else {
        seq![rows[0]] + upsert_rcpt(rows.skip(1), e, now)
    }
}

/// The table after a batch of upserts sharing one timestamp, applied in
/// batch order under a single transaction.
pub open spec fn upsert_all(
    rows: Seq<RetrieveReceipt>,
    es: Seq<Receipt>,
    now: i64,
) -> Seq<RetrieveReceipt>
    decreases es.len(),
{
    if es.len() == 0 {
        rows
    } else {
        upsert_all(upsert_rcpt(rows, es[0], now), es.skip(1), now)
    }
}

/// The stored receipt rows for message `msg`, in stored order.
pub open spec fn rcpts_for(rows: Seq<RetrieveReceipt>, msg: Seq<char>) -> Seq<RetrieveReceipt>
    decreases rows.len(),
{
    if rows.len() == 0 {
        Seq::empty()
    } else {
        let rest = rcpts_for(rows.skip(1), msg);
        if rows[0].message@ == msg {
            seq![rows[0]] + rest
        } else {
            rest
        }
    }
}

proof fn lemma_upsert_found(rows: Seq<RetrieveReceipt>, e: Receipt, now: i64, i: int)
    requires
        0 <= i < rows.len(),
        rcpt_key_is(rows[i], e.message@, e.user@),
        forall|j: int| 0 <= j < i ==> !rcpt_key_is(rows[j], e.message@, e.user@),
    ensures
        upsert_rcpt(rows, e, now) == rows.update(i, merge_receipt(rows[i], e, now)),
    decreases i,
{
    if i == 0 {
        assert(upsert_rcpt(rows, e, now) =~= rows.update(0, merge_receipt(rows[0], e, now)));
    } else {
        assert(rows.skip(1)[i - 1] == rows[i]);
        assert(forall|j: int|
            0 <= j < i - 1 ==> !rcpt_key_is(#[trigger] rows.skip(1)[j], e.message@, e.user@));
        lemma_upsert_found(rows.skip(1), e, now, i - 1);
        assert(seq![rows[0]] + rows.skip(1).update(i - 1, merge_receipt(rows[i], e, now))
            =~= rows.update(i, merge_receipt(rows[i], e, now)));
    }
}

proof fn lemma_upsert_absent(rows: Seq<RetrieveReceipt>, e: Receipt, now: i64)
    requires
        !has_rcpt(rows, e.message@, e.user@),
    ensures
        upsert_rcpt(rows, e, now) == rows.push(fresh_receipt(e, now)),
    decreases rows.len(),
{
    if rows.len() == 0 {
        assert(upsert_rcpt(rows, e, now) =~= rows.push(fresh_receipt(e, now)));
    } else {
        assert(!has_rcpt(rows.skip(1), e.message@, e.user@)) by {
            if has_rcpt(rows.skip(1), e.message@, e.user@) {
                let j = choose|j: int|
                    0 <= j < rows.skip(1).len() && rcpt_key_is(
                        rows.skip(1)[j],
                        e.message@,
                        e.user@,
                    );
                assert(rcpt_key_is(rows[j + 1], e.message@, e.user@));
            }
        }
        lemma_upsert_absent(rows.skip(1), e, now);
        assert(seq![rows[0]] + rows.skip(1).push(fresh_receipt(e, now)) =~= rows.push(
            fresh_receipt(e, now),
        ));
    }
}

fn clone_rcpt(r: &RetrieveReceipt) -> (out: RetrieveReceipt)
    ensures
        out == *r,
{
    RetrieveReceipt {
        message: r.message.clone(),
        user: r.user.clone(),
        delivered_at: r.delivered_at,
        read_at: r.read_at,
        reaction: r.reaction,
    }
}

/// The `message_receipts` table.
pub struct MessageReceipt {
    rows: Vec<RetrieveReceipt>,
}

impl MessageReceipt {
    pub closed spec fn rows(self) -> Seq<RetrieveReceipt> {
        self.rows@
    }

    /// Well-formed: `(message, user)` keys are unique.
    pub open spec fn wf(self) -> bool {
        rcpt_keys_unique(self.rows())
    }

    pub fn new() -> (r: MessageReceipt)
        ensures
            r.wf(),
            r.rows() == Seq::<RetrieveReceipt>::empty(),
    {
        MessageReceipt { rows: Vec::new() }
    }

    /// Idempotent upsert of one receipt event under the monotone merge
    /// rule, stamped with `now`.
    pub fn upsert(&mut self, e: &Receipt, now: i64)
        requires
            old(self).wf(),
        ensures
            final(self).wf(),
            final(self).rows() == upsert_rcpt(old(self).rows(), *e, now),
    {
        let ghost rows = self.rows@;
        let n = self.rows.len();
        let mut found: Option<usize> = None;
        let mut i: usize = 0;
        while i < n && found.is_none()
            invariant
                n == self.rows.len(),
                rows == self.rows@,
                0 <= i <= n,
                match found {
                    Some(k) => k < n && rcpt_key_is(rows[k as int], e.message@, e.user@)
                        && (forall|j: int|
                        0 <= j < k ==> !rcpt_key_is(rows[j], e.message@, e.user@)) && i == k,
                    None => forall|j: int| 0 <= j < i ==> !rcpt_key_is(rows[j], e.message@, e.user@),
                },
            decreases n - i + (if found is Some {
                0int
            } else {
                1int
            }),
        {
            if self.rows[i].message.eq(&e.message) && self.rows[i].user.eq(&e.user) {
                found = Some(i);
            } else {
                i = i + 1;
            }
        }
        match found {
            Some(k) => {
                let row = self.rows.remove(k);
                let merged = RetrieveReceipt {
                    message: row.message,
                    user: row.user,
                    delivered_at: match row.delivered_at {
                        Some(t) => Some(t),
                        None => if e.delivered {
                            Some(now)
                        } else {
                            None
                        },
                    },
                    read_at: match row.read_at {
                        Some(t) => Some(t),
                        None => if e.read {
                            Some(now)
                        } else {
                            None
                        },
                    },
                    reaction: match e.reaction {
                        Some(x) => Some(x),
                        None => row.reaction,
                    },
                };
                proof {
                    assert(merged == merge_receipt(rows[k as int], *e, now));
                }
                self.rows.insert(k, merged);
                proof {
                    lemma_upsert_found(rows, *e, now, k as int);
                    assert(self.rows@ =~= rows.update(k as int, merged));
                    assert(rcpt_keys_unique(self.rows@)) by {
                        assert forall|a: int, b: int|
                            0 <= a < b < self.rows@.len() implies !(self.rows@[a].message@
                            == self.rows@[b].message@ && self.rows@[a].user@
                            == self.rows@[b].user@) by {
                            assert(self.rows@[a].message@ == rows[a].message@ && self.rows@[a].user@
                                == rows[a].user@);
                            assert(self.rows@[b].message@ == rows[b].message@ && self.rows@[b].user@
                                == rows[b].user@);
                        }
                    }
                }
            },
            None => {
                let fresh = RetrieveReceipt {
                    message: e.message.clone(),
                    user: e.user.clone(),
                    delivered_at: if e.delivered {
                        Some(now)
                    } else {
                        None
                    },
                    read_at: if e.read {
                        Some(now)
                    } else {
                        None
                    },
                    reaction: e.reaction,
                };
                proof {
                    assert(fresh == fresh_receipt(*e, now));
                    assert(!has_rcpt(rows, e.message@, e.user@));
                    lemma_upsert_absent(rows, *e, now);
                }
                self.rows.push(fresh);
                proof {
                    assert(rcpt_keys_unique(self.rows@)) by {
                        assert forall|a: int, b: int|
                            0 <= a < b < self.rows@.len() implies !(self.rows@[a].message@
                            == self.rows@[b].message@ && self.rows@[a].user@
                            == self.rows@[b].user@) by {
                            if b < rows.len() {
                            } else {
                                assert(self.rows@[b] == fresh_receipt(*e, now));
                                assert(self.rows@[a] == rows[a]);
                            }
                        }
                    }
                }
            },
        }
    }

    /// Batch upsert: the events applied in order, all stamped with the
    /// one timestamp of the enclosing transaction.
    pub fn batch_upsert(&mut self, events: Vec<Receipt>, now: i64)
        requires
            old(self).wf(),
        ensures
            final(self).wf(),
            final(self).rows() == upsert_all(old(self).rows(), events@, now),
    {
        let ghost orig = self.rows@;
        let ghost batch = events@;
        let mut events = events;
        let ghost mut i: int = 0;
        proof {
            assert(batch.skip(0) =~= batch);
        }
        while events.len() > 0
            invariant
                rcpt_keys_unique(self.rows@),
                0 <= i <= batch.len(),
                events@ == batch.skip(i),
                upsert_all(self.rows@, batch.skip(i), now) == upsert_all(orig, batch, now),
            decreases events.len(),
        {
            let e = events.remove(0);
            proof {
                assert(batch.skip(i)[0] == e);
                assert(batch.skip(i).skip(1) =~= batch.skip(i + 1));
                assert(events@ =~= batch.skip(i + 1));
            }
            self.upsert(&e, now);
            proof {
                i = i + 1;
            }
        }
        proof {
            assert(batch.skip(i) =~= Seq::<Receipt>::empty());
        }
    }

    /// The receipt rows for one message, in stored order.
    pub fn retrieve(&self, msg: &String) -> (r: Vec<RetrieveReceipt>)
        ensures
            r@ == rcpts_for(self.rows(), msg@),
    {
        let mut out: Vec<RetrieveReceipt> = Vec::new();
        let n = self.rows.len();
        let ghost rows = self.rows@;
        proof {
            assert(rows.skip(0) =~= rows);
        }
        for i in 0..n
            invariant
                n == self.rows.len(),
                rows == self.rows@,
                out@ + rcpts_for(rows.skip(i as int), msg@) =~= rcpts_for(rows, msg@),
        {
            proof {
                assert(rows.skip(i as int)[0] == rows[i as int]);
                assert(rows.skip(i as int).skip(1) =~= rows.skip(i as int + 1));
            }
            if self.rows[i].message.eq(msg) {
                out.push(clone_rcpt(&self.rows[i]));
                proof {
                    let rest = rcpts_for(rows.skip(i as int + 1), msg@);
                    assert(rcpts_for(rows.skip(i as int), msg@) =~= seq![rows[i as int]] + rest);
                }
            }
        }
        proof {
            assert(rows.skip(n as int) =~= Seq::<RetrieveReceipt>::empty());
            assert(out@ + Seq::<RetrieveReceipt>::empty() =~= out@);
        }
        out
    }
}

/// The table after a sequence of upserts, each stamped with its own
/// timestamp.
pub open spec fn apply_events(
    rows: Seq<RetrieveReceipt>,
    evs: Seq<(Receipt, i64)>,
) -> Seq<RetrieveReceipt>
    decreases evs.len(),
{
    if evs.len() == 0 {
        rows
    } else {
        apply_events(upsert_rcpt(rows, evs[0].0, evs[0].1), evs.skip(1))
    }
}

/// One row after a sequence of merges.
pub open spec fn fold_receipt(row: RetrieveReceipt, evs: Seq<(Receipt, i64)>) -> RetrieveReceipt
    decreases evs.len(),
{
    if evs.len() == 0 {
        row
    } else {
        fold_receipt(merge_receipt(row, evs[0].0, evs[0].1), evs.skip(1))
    }
}

/// The row that a sequence of upserts for one fresh key produces.
pub open spec fn final_receipt(evs: Seq<(Receipt, i64)>) -> RetrieveReceipt
    recommends
        evs.len() > 0,
{
    fold_receipt(fresh_receipt(evs[0].0, evs[0].1), evs.skip(1))
}

/// The timestamp of the first event that reports delivery.
pub open spec fn first_delivery(evs: Seq<(Receipt, i64)>) -> Option<i64>
    decreases evs.len(),
{
    if evs.len() == 0 {
        None
    } else if evs[0].0.delivered {
        Some(evs[0].1)
    } else {
        first_delivery(evs.skip(1))
    }
}

/// The timestamp of the first event that reports a read.
pub open spec fn first_read(evs: Seq<(Receipt, i64)>) -> Option<i64>
    decreases evs.len(),
{
    if evs.len() == 0 {
        None
    } else if evs[0].0.read {
        Some(evs[0].1)
    } else {
        first_read(evs.skip(1))
    }
}

/// The last non-null reaction among the events.
pub open spec fn last_reaction(evs: Seq<(Receipt, i64)>) -> Option<i64>
    decreases evs.len(),
{
    if evs.len() == 0 {
        None
    } else {
        let rest = last_reaction(evs.skip(1));
        if rest is Some {
            rest
        } else {
            evs[0].0.reaction
        }
    }
}

pub open spec fn opt_min(a: Option<i64>, b: Option<i64>) -> Option<i64> {
    match a {
        None => b,
        Some(x) => match b {
            None => Some(x),
            Some(y) => if x <= y {
                Some(x)
            } else {
                Some(y)
            },
        },
    }
}

/// The minimum timestamp among the events that report delivery.
pub open spec fn min_delivery(evs: Seq<(Receipt, i64)>) -> Option<i64>
    decreases evs.len(),
{
    if evs.len() == 0 {
        None
    } else {
        opt_min(
            if evs[0].0.delivered {
                Some(evs[0].1)
            } else {
                None
            },
            min_delivery(evs.skip(1)),
        )
    }
}

/// The minimum timestamp among the events that report a read.
pub open spec fn min_read(evs: Seq<(Receipt, i64)>) -> Option<i64>
    decreases evs.len(),
{
    if evs.len() == 0 {
        None
    } else {
        opt_min(
            if evs[0].0.read {
                Some(evs[0].1)
            } else {
                None
            },
            min_read(evs.skip(1)),
        )
    }
}

/// All events carry the key `(msg, user)`.
pub open spec fn all_keyed(evs: Seq<(Receipt, i64)>, msg: Seq<char>, user: Seq<char>) -> bool {
    forall|k: int|
        0 <= k < evs.len() ==> (#[trigger] evs[k]).0.message@ == msg && evs[k].0.user@ == user
}

/// Event timestamps never decrease along the sequence.
pub open spec fn ts_nondecreasing(evs: Seq<(Receipt, i64)>) -> bool {
    forall|k1: int, k2: int|
        0 <= k1 <= k2 < evs.len() ==> (#[trigger] evs[k1]).1 <= (#[trigger] evs[k2]).1
}

proof fn lemma_apply_events_localized(
    base: Seq<RetrieveReceipt>,
    row: RetrieveReceipt,
    evs: Seq<(Receipt, i64)>,
    msg: Seq<char>,
    user: Seq<char>,
)
    requires
        !has_rcpt(base, msg, user),
        rcpt_key_is(row, msg, user),
        all_keyed(evs, msg, user),
    ensures
        apply_events(base.push(row), evs) == base.push(fold_receipt(row, evs)),
    decreases evs.len(),
{
    if evs.len() > 0 {
        let e = evs[0].0;
        let now = evs[0].1;
        let rows = base.push(row);
        assert(rows[base.len() as int] == row);
        assert(forall|j: int| 0 <= j < base.len() ==> rows[j] == base[j]);
        assert(forall|j: int| 0 <= j < base.len() ==> !rcpt_key_is(rows[j], e.message@, e.user@));
        lemma_upsert_found(rows, e, now, base.len() as int);
        let merged = merge_receipt(row, e, now);
        assert(rows.update(base.len() as int, merged) =~= base.push(merged));
        assert(all_keyed(evs.skip(1), msg, user)) by {
            assert forall|k: int|
                0 <= k < evs.skip(1).len() implies (#[trigger] evs.skip(1)[k]).0.message@ == msg
                && evs.skip(1)[k].0.user@ == user by {
                assert(evs.skip(1)[k] == evs[k + 1]);
            }
        }
        lemma_apply_events_localized(base, merged, evs.skip(1), msg, user);
    }
}

proof fn lemma_fold_receipt_fields(row: RetrieveReceipt, evs: Seq<(Receipt, i64)>)
    ensures
        fold_receipt(row, evs).message == row.message,
        fold_receipt(row, evs).user == row.user,
        fold_receipt(row, evs).delivered_at == if row.delivered_at is Some {
            row.delivered_at
        } else {
            first_delivery(evs)
        },
        fold_receipt(row, evs).read_at == if row.read_at is Some {
            row.read_at
        } else {
            first_read(evs)
        },
        fold_receipt(row, evs).reaction == if last_reaction(evs) is Some {
            last_reaction(evs)
        } else {
            row.reaction
        },
    decreases evs.len(),
{
    if evs.len() > 0 {
        lemma_fold_receipt_fields(merge_receipt(row, evs[0].0, evs[0].1), evs.skip(1));
    }
}

proof fn lemma_min_delivery_lower(evs: Seq<(Receipt, i64)>, b: i64)
    requires
        forall|k: int| 0 <= k < evs.len() ==> (#[trigger] evs[k]).1 >= b,
    ensures
        min_delivery(evs) matches Some(t) ==> t >= b,
        min_read(evs) matches Some(t) ==> t >= b,
    decreases evs.len(),
{
    if evs.len() > 0 {
        assert(forall|k: int| 0 <= k < evs.skip(1).len() ==> (#[trigger] evs.skip(1)[k]).1 >= b);
        lemma_min_delivery_lower(evs.skip(1), b);
    }
}

proof fn lemma_first_is_min(evs: Seq<(Receipt, i64)>)
    requires
        ts_nondecreasing(evs),
    ensures
        first_delivery(evs) == min_delivery(evs),
        first_read(evs) == min_read(evs),
    decreases evs.len(),
{
    if evs.len() > 0 {
        let rest = evs.skip(1);
        assert(ts_nondecreasing(rest)) by {
            assert forall|k1: int, k2: int|
                0 <= k1 <= k2 < rest.len() implies (#[trigger] rest[k1]).1
                <= (#[trigger] rest[k2]).1 by {
                assert(rest[k1] == evs[k1 + 1] && rest[k2] == evs[k2 + 1]);
            }
        }
        lemma_first_is_min(rest);
        assert(forall|k: int| 0 <= k < rest.len() ==> (#[trigger] rest[k]).1 >= evs[0].1) by {
            assert forall|k: int| 0 <= k < rest.len() implies (#[trigger] rest[k]).1
                >= evs[0].1 by {
                assert(rest[k] == evs[k + 1]);
            }
        }
        lemma_min_delivery_lower(rest, evs[0].1);
    }
}

/// A sequence of upserts for one key, the key fresh beforehand, collapses
/// to a single appended row.
pub proof fn lemma_upserts_append_one_row(
    rows: Seq<RetrieveReceipt>,
    evs: Seq<(Receipt, i64)>,
    msg: Seq<char>,
    user: Seq<char>,
)
    requires
        evs.len() > 0,
        all_keyed(evs, msg, user),
        !has_rcpt(rows, msg, user),
    ensures
        apply_events(rows, evs) == rows.push(final_receipt(evs)),
        final_receipt(evs).message@ == msg,
        final_receipt(evs).user@ == user,
{
    let e0 = evs[0].0;
    let t0 = evs[0].1;
    let fresh = fresh_receipt(e0, t0);
    lemma_upsert_absent(rows, e0, t0);
    assert(all_keyed(evs.skip(1), msg, user)) by {
        assert forall|k: int|
            0 <= k < evs.skip(1).len() implies (#[trigger] evs.skip(1)[k]).0.message@ == msg
            && evs.skip(1)[k].0.user@ == user by {
            assert(evs.skip(1)[k] == evs[k + 1]);
        }
    }
    lemma_apply_events_localized(rows, fresh, evs.skip(1), msg, user);
    lemma_fold_receipt_fields(fresh, evs.skip(1));
}

/// Receipt monotonicity: for any sequence of upserts for one `(message,
/// user)` key with non-decreasing timestamps, the final `delivered_at`
/// equals the minimum timestamp reported with a delivery, `read_at` the
/// minimum reported with a read, and `reaction` the last non-null
/// reaction provided.
pub proof fn lemma_receipt_monotonicity(
    rows: Seq<RetrieveReceipt>,
    evs: Seq<(Receipt, i64)>,
    msg: Seq<char>,
    user: Seq<char>,
)
    requires
        evs.len() > 0,
        all_keyed(evs, msg, user),
        !has_rcpt(rows, msg, user),
        ts_nondecreasing(evs),
    ensures
        apply_events(rows, evs) == rows.push(final_receipt(evs)),
        final_receipt(evs).delivered_at == min_delivery(evs),
        final_receipt(evs).read_at == min_read(evs),
        final_receipt(evs).reaction == last_reaction(evs),
{
    lemma_upserts_append_one_row(rows, evs, msg, user);
    let e0 = evs[0].0;
    let t0 = evs[0].1;
    let fresh = fresh_receipt(e0, t0);
    lemma_fold_receipt_fields(fresh, evs.skip(1));
    lemma_first_is_min(evs);
}

proof fn lemma_rcpts_for_push(rows: Seq<RetrieveReceipt>, x: RetrieveReceipt, msg: Seq<char>)
    requires
        x.message@ == msg,
    ensures
        rcpts_for(rows.push(x), msg) == rcpts_for(rows, msg).push(x),
    decreases rows.len(),
{
    if rows.len() == 0 {
        assert(rows.push(x)[0] == x);
        assert(rows.push(x).skip(1) =~= Seq::<RetrieveReceipt>::empty());
        assert(rcpts_for(Seq::<RetrieveReceipt>::empty(), msg) =~= Seq::<RetrieveReceipt>::empty());
        assert(rcpts_for(rows.push(x), msg) =~= rcpts_for(rows, msg).push(x));
    } else {
        assert(rows.push(x)[0] == rows[0]);
        assert(rows.push(x).skip(1) =~= rows.skip(1).push(x));
        lemma_rcpts_for_push(rows.skip(1), x, msg);
        if rows[0].message@ == msg {
            assert(seq![rows[0]] + rcpts_for(rows.skip(1), msg).push(x) =~= (seq![rows[0]]
                + rcpts_for(rows.skip(1), msg)).push(x));
        }
    }
}

/// React then get-receipts: after a sequence of receipt events for a key
/// that had no row yet, fetching the receipts of that message shows a row
/// for that user whose reaction is the last non-null reaction provided.
pub proof fn lemma_react_then_get_receipts(
    rows: Seq<RetrieveReceipt>,
    evs: Seq<(Receipt, i64)>,
    msg: Seq<char>,
    user: Seq<char>,
)
    requires
        evs.len() > 0,
        all_keyed(evs, msg, user),
        !has_rcpt(rows, msg, user),
    ensures
        ({
            let fetched = rcpts_for(apply_events(rows, evs), msg);
            fetched.len() > 0 && fetched.last().user@ == user && fetched.last().reaction
                == last_reaction(evs)
        }),
{
    lemma_upserts_append_one_row(rows, evs, msg, user);
    let x = final_receipt(evs);
    lemma_rcpts_for_push(rows, x, msg);
    let e0 = evs[0].0;
    let t0 = evs[0].1;
    lemma_fold_receipt_fields(fresh_receipt(e0, t0), evs.skip(1));
}

} // verus!
