//! Verified model of the directory tables: `conversations`, `participants`
//! and `boxes` (mailboxes), with the uniqueness rules the store enforces.

use vstd::prelude::*;

use crate::models::ConversationListItem;
use crate::models::ConversationResponse;
use crate::models::InsertConversation;
use crate::models::Mailbox;
use crate::store::page;

verus! {

/// Why a store operation was refused.
#[derive(Debug, PartialEq, Eq, Structural)]
pub enum StoreError {
    /// A uniqueness rule would be violated.
    Conflict,
    /// The id space for generated row ids is exhausted.
    Full,
}

/// True when an edge for `(conv, user)` exists.
pub open spec fn has_edge(
    edges: Seq<crate::models::Participant>,
    conv: Seq<char>,
    user: Seq<char>,
) -> bool {
    exists|i: int|
        0 <= i < edges.len() && edges[i].conversation@ == conv && edges[i].participant@ == user
}

/// Edges are unique on `(conversation, participant)`.
pub open spec fn edges_unique(edges: Seq<crate::models::Participant>) -> bool {
    forall|i: int, j: int|
        0 <= i < j < edges.len() ==> !(edges[i].conversation@ == edges[j].conversation@
            && edges[i].participant@ == edges[j].participant@)
}

/// The edges of one conversation, in stored order.
pub open spec fn edges_of(
    edges: Seq<crate::models::Participant>,
    conv: Seq<char>,
) -> Seq<crate::models::Participant>
    decreases edges.len(),
{
    if edges.len() == 0 {
        Seq::empty()
    } else {
        let rest = edges_of(edges.skip(1), conv);
        if edges[0].conversation@ == conv {
            seq![edges[0]] + rest
        } else {
            rest
        }
    }
}

/// The table and id counter after an `INSERT OR IGNORE` of one edge per
/// subject, in order: an existing pair is skipped, a new one is appended
/// under the next generated id.
pub open spec fn insert_edges(
    edges: Seq<crate::models::Participant>,
    conversation: String,
    subjects: Seq<String>,
    now: i64,
    next_id: int,
) -> (Seq<crate::models::Participant>, int)
    decreases subjects.len(),
{
    if subjects.len() == 0 {
        (edges, next_id)
    } else if has_edge(edges, conversation@, subjects[0]@) {
        insert_edges(edges, conversation, subjects.skip(1), now, next_id)
    } else {
        insert_edges(
            edges.push(
                crate::models::Participant {
                    id: next_id as i64,
                    conversation: conversation,
                    participant: subjects[0],
                    created: now,
                },
            ),
            conversation,
            subjects.skip(1),
            now,
            next_id + 1,
        )
    }
}

fn clone_edge(p: &crate::models::Participant) -> (r: crate::models::Participant)
    ensures
        r == *p,
{
    crate::models::Participant {
        id: p.id,
        conversation: p.conversation.clone(),
        participant: p.participant.clone(),
        created: p.created,
    }
}

/// The `participants` table.
pub struct Participant {
    edges: Vec<crate::models::Participant>,
    next_id: i64,
}

impl Participant {
    pub closed spec fn edges(self) -> Seq<crate::models::Participant> {
        self.edges@
    }

    pub closed spec fn next_id(self) -> int {
        self.next_id as int
    }

    /// Well-formed: edges unique on `(conversation, participant)` and row
    /// ids generated in order.
    pub open spec fn wf(self) -> bool {
        edges_unique(self.edges()) && self.next_id() >= 0
    }

    pub fn new() -> (r: Participant)
        ensures
            r.wf(),
            r.edges() == Seq::<crate::models::Participant>::empty(),
            r.next_id() == 0,
    {
        Participant { edges: Vec::new(), next_id: 0 }
    }

    /// True when `user` is a participant of `conversation`.
    pub fn is_participant(&self, conversation: &String, user: &String) -> (r: bool)
        ensures
            r == has_edge(self.edges(), conversation@, user@),
    {
        let n = self.edges.len();
        for i in 0..n
            invariant
                n == self.edges.len(),
                forall|j: int|
                    0 <= j < i ==> !(self.edges@[j].conversation@ == conversation@
                        && self.edges@[j].participant@ == user@),
        {
            if self.edges[i].conversation.eq(conversation) && self.edges[i].participant.eq(user) {
                return true;
            }
        }
        false
    }

    /// Insert one edge.  Refused when the edge already exists (the table
    /// is unique on the pair) or when the id space is exhausted.
    pub fn insert(&mut self, conversation: &String, subject: &String, now: i64) -> (r: Result<
        (),
        StoreError,
    >)
        requires
            old(self).wf(),
        ensures
            final(self).wf(),
            r is Ok <==> !has_edge(old(self).edges(), conversation@, subject@) && old(
                self,
            ).next_id() < i64::MAX,
            r == Err::<(), StoreError>(StoreError::Conflict) <==> has_edge(
                old(self).edges(),
                conversation@,
                subject@,
            ),
            r is Ok ==> final(self).edges() == old(self).edges().push(
                (crate::models::Participant {
                    id: old(self).next_id() as i64,
                    conversation: *conversation,
                    participant: *subject,
                    created: now,
                }),
            ) && final(self).next_id() == old(self).next_id() + 1,
            r is Err ==> *final(self) == *old(self),
    {
        if self.is_participant(conversation, subject) {
            return Err(StoreError::Conflict);
        }
        if self.next_id == i64::MAX {
            return Err(StoreError::Full);
        }
        let ghost pre = self.edges@;
        let edge = crate::models::Participant {
            id: self.next_id,
            conversation: conversation.clone(),
            participant: subject.clone(),
            created: now,
        };
        self.edges.push(edge);
        self.next_id = self.next_id + 1;
        proof {
            assert forall|a: int, b: int|
                0 <= a < b < self.edges@.len() implies !(self.edges@[a].conversation@
                == self.edges@[b].conversation@ && self.edges@[a].participant@
                == self.edges@[b].participant@) by {
                if b < pre.len() {
                } else {
                    assert(self.edges@[a] == pre[a]);
                }
            }
        }
        Ok(())
    }

    /// Insert edges for every subject, ignoring the pairs that already
    /// exist: the `INSERT OR IGNORE` bulk form.  Refused, with nothing
    /// changed, only when the subjects could outrun the id space.
    pub fn insert_many(&mut self, conversation: &String, subjects: &Vec<String>, now: i64) -> (r:
        Result<(), StoreError>)
        requires
            old(self).wf(),
        ensures
            final(self).wf(),
            r is Ok <==> old(self).next_id() + subjects@.len() <= i64::MAX,
            r is Ok ==> (final(self).edges(), final(self).next_id()) == insert_edges(
                old(self).edges(),
                *conversation,
                subjects@,
                now,
                old(self).next_id(),
            ),
            r is Err ==> *final(self) == *old(self),
    {
        let n = subjects.len();
        if n as u64 > i64::MAX as u64 || self.next_id > i64::MAX - (n as i64) {
            return Err(StoreError::Full);
        }
        let ghost orig_edges = self.edges@;
        let ghost orig_next = self.next_id as int;
        let ghost list = subjects@;
        proof {
            assert(list.skip(0) =~= list);
        }
        for k in 0..n
            invariant
                n == subjects.len(),
                list == subjects@,
                self.wf(),
                self.next_id as int + (n - k) <= i64::MAX,
                insert_edges(self.edges@, *conversation, list.skip(k as int), now, self.next_id as int)
                    == insert_edges(orig_edges, *conversation, list, now, orig_next),
        {
            proof {
                assert(list.skip(k as int)[0] == list[k as int]);
                assert(list.skip(k as int).skip(1) =~= list.skip(k as int + 1));
            }
            match self.insert(conversation, &subjects[k], now) {
                Ok(()) => {
                },
                Err(StoreError::Conflict) => {
                },
                Err(StoreError::Full) => {
                    proof {
                        assert(false);
                    }
                },
            }
        }
        proof {
            assert(list.skip(n as int) =~= Seq::<String>::empty());
        }
        Ok(())
    }

    /// The edges of one conversation, paged: the participant listing the
    /// write path consults.
    pub fn retrieve(&self, conversation: &String, limit: i32, offset: i32) -> (r: Vec<
        crate::models::Participant,
    >)
        ensures
            r@ == page(edges_of(self.edges(), conversation@), limit as int, offset as int),
    {
        let mut matched: Vec<crate::models::Participant> = Vec::new();
        let n = self.edges.len();
        let ghost edges = self.edges@;
        proof {
            assert(edges.skip(0) =~= edges);
        }
        for i in 0..n
            invariant
                n == self.edges.len(),
                edges == self.edges@,
                matched@ + edges_of(edges.skip(i as int), conversation@) =~= edges_of(
                    edges,
                    conversation@,
                ),
        {
            proof {
                assert(edges.skip(i as int)[0] == edges[i as int]);
                assert(edges.skip(i as int).skip(1) =~= edges.skip(i as int + 1));
            }
            if self.edges[i].conversation.eq(conversation) {
                matched.push(clone_edge(&self.edges[i]));
                proof {
                    let rest = edges_of(edges.skip(i as int + 1), conversation@);
                    assert(edges_of(edges.skip(i as int), conversation@) =~= seq![edges[i as int]]
                        + rest);
                }
            }
        }
        proof {
            assert(edges.skip(n as int) =~= Seq::<crate::models::Participant>::empty());
            assert(matched@ + Seq::<crate::models::Participant>::empty() =~= matched@);
        }
        let off: usize = if offset < 0 {
            0
        } else if offset as usize > matched.len() {
            matched.len()
        } else {
            offset as usize
        };
        let mut rest = matched.split_off(off);
        if limit >= 0 && (limit as usize) < rest.len() {
            rest.truncate(limit as usize);
        }
        proof {
            assert(rest@ =~= page(edges_of(edges, conversation@), limit as int, offset as int));
        }
        rest
    }
}

/// True when a conversation named `name` exists.
pub open spec fn has_conv(rows: Seq<ConversationResponse>, name: Seq<char>) -> bool {
    exists|i: int| 0 <= i < rows.len() && rows[i].name@ == name
}

/// Conversation names are unique: the primary key.
pub open spec fn conv_names_unique(rows: Seq<ConversationResponse>) -> bool {
    forall|i: int, j: int| 0 <= i < j < rows.len() ==> rows[i].name@ != rows[j].name@
}

fn clone_opt_string(s: &Option<String>) -> (r: Option<String>)
    ensures
        r == *s,
{
    match s {
        Some(x) => Some(x.clone()),
        None => None,
    }
}

fn clone_conv(c: &ConversationResponse) -> (r: ConversationResponse)
    ensures
        r == *c,
{
    ConversationResponse {
        name: c.name.clone(),
        admin: c.admin.clone(),
        title: clone_opt_string(&c.title),
        created: c.created,
        mbox: c.mbox.clone(),
    }
}

/// The `conversations` table.
pub struct Conversation {
    rows: Vec<ConversationResponse>,
}

impl Conversation {
    pub closed spec fn rows(self) -> Seq<ConversationResponse> {
        self.rows@
    }

    /// Well-formed: names unique.
    pub open spec fn wf(self) -> bool {
        conv_names_unique(self.rows())
    }

    pub fn new() -> (r: Conversation)
        ensures
            r.wf(),
            r.rows() == Seq::<ConversationResponse>::empty(),
    {
        Conversation { rows: Vec::new() }
    }

    /// Insert a conversation, stamped with `now`.  The stored row's
    /// mailbox id equals the conversation name.  Refused when the name is
    /// taken.
    pub fn insert(&mut self, conv: &InsertConversation, now: i64) -> (r: Result<
        ConversationResponse,
        StoreError,
    >)
        requires
            old(self).wf(),
        ensures
            final(self).wf(),
            r is Ok <==> !has_conv(old(self).rows(), conv.name@),
            r matches Ok(c) ==> c.name == conv.name && c.admin == conv.admin && c.title
                == conv.title && c.created == now && c.mbox == conv.name && final(self).rows()
                == old(self).rows().push(c),
            r is Err ==> *final(self) == *old(self),
    {
        let ghost pre = self.rows@;
        let n = self.rows.len();
        for i in 0..n
            invariant
                n == self.rows.len(),
                self.wf(),
                self.rows@ == old(self).rows@,
                pre == self.rows@,
                forall|j: int| 0 <= j < i ==> self.rows@[j].name@ != conv.name@,
        {
            if self.rows[i].name.eq(&conv.name) {
                proof {
                    assert(has_conv(old(self).rows(), conv.name@));
                }
                return Err(StoreError::Conflict);
            }
        }
        let row = ConversationResponse {
            name: conv.name.clone(),
            admin: conv.admin.clone(),
            title: clone_opt_string(&conv.title),
            created: now,
            mbox: conv.name.clone(),
        };
        let out = clone_conv(&row);
        self.rows.push(row);
        proof {
            assert forall|a: int, b: int|
                0 <= a < b < self.rows@.len() implies self.rows@[a].name@
                != self.rows@[b].name@ by {
                if b < pre.len() {
                } else {
                    assert(self.rows@[a] == pre[a]);
                }
            }
        }
        Ok(out)
    }

    /// The conversation named `name`, if any.
    pub fn get(&self, name: &String) -> (r: Option<ConversationResponse>)
        ensures
            match r {
                Some(c) => has_conv(self.rows(), name@) && exists|i: int|
                    0 <= i < self.rows().len() && self.rows()[i] == c && c.name@ == name@,
                None => !has_conv(self.rows(), name@),
            },
    {
        let n = self.rows.len();
        for i in 0..n
            invariant
                n == self.rows.len(),
                forall|j: int| 0 <= j < i ==> self.rows@[j].name@ != name@,
        {
            if self.rows[i].name.eq(name) {
                let c = clone_conv(&self.rows[i]);
                proof {
                    assert(self.rows()[i as int] == c);
                }
                return Some(c);
            }
        }
        None
    }
}

/// True when a mailbox with id `id` exists.
pub open spec fn has_box(rows: Seq<Mailbox>, id: Seq<char>) -> bool {
    exists|i: int| 0 <= i < rows.len() && rows[i].id@ == id
}

/// Mailbox ids are unique: the primary key.
pub open spec fn box_ids_unique(rows: Seq<Mailbox>) -> bool {
    forall|i: int, j: int| 0 <= i < j < rows.len() ==> rows[i].id@ != rows[j].id@
}

/// The id of the first mailbox owned by `owner`, if any.
pub open spec fn first_box_id(rows: Seq<Mailbox>, owner: Seq<char>) -> Option<String>
    decreases rows.len(),
{
    if rows.len() == 0 {
        None
    } else if rows[0].owner@ == owner {
        Some(rows[0].id)
    } else {
        first_box_id(rows.skip(1), owner)
    }
}

/// The `boxes` table.
pub struct Mailboxes {
    rows: Vec<Mailbox>,
}

impl Mailboxes {
    pub closed spec fn rows(self) -> Seq<Mailbox> {
        self.rows@
    }

    /// Well-formed: ids unique.
    pub open spec fn wf(self) -> bool {
        box_ids_unique(self.rows())
    }

    pub fn new() -> (r: Mailboxes)
        ensures
            r.wf(),
            r.rows() == Seq::<Mailbox>::empty(),
    {
        Mailboxes { rows: Vec::new() }
    }

    /// Insert a mailbox.  Refused when the id is taken.
    pub fn insert(&mut self, mb: Mailbox) -> (r: Result<(), StoreError>)
        requires
            old(self).wf(),
        ensures
            final(self).wf(),
            r is Ok <==> !has_box(old(self).rows(), mb.id@),
            r is Ok ==> final(self).rows() == old(self).rows().push(mb),
            r is Err ==> *final(self) == *old(self),
    {
        let ghost pre = self.rows@;
        let n = self.rows.len();
        for i in 0..n
            invariant
                n == self.rows.len(),
                self.wf(),
                self.rows@ == old(self).rows@,
                forall|j: int| 0 <= j < i ==> self.rows@[j].id@ != mb.id@,
        {
            if self.rows[i].id.eq(&mb.id) {
                proof {
                    assert(has_box(old(self).rows(), mb.id@));
                }
                return Err(StoreError::Conflict);
            }
        }
        self.rows.push(mb);
        proof {
            assert forall|a: int, b: int|
                0 <= a < b < self.rows@.len() implies self.rows@[a].id@ != self.rows@[b].id@ by {
                if b < pre.len() {
                } else {
                    assert(self.rows@[a] == pre[a]);
                }
            }
        }
        Ok(())
    }

    /// The id of `owner`'s default mailbox, if one exists.
    pub fn get_by_owner(&self, owner: &String) -> (r: Option<String>)
        ensures
            r == first_box_id(self.rows(), owner@),
    {
        let n = self.rows.len();
        let ghost rows = self.rows@;
        proof {
            assert(rows.skip(0) =~= rows);
        }
        for i in 0..n
            invariant
                n == self.rows.len(),
                rows == self.rows@,
                first_box_id(rows.skip(i as int), owner@) == first_box_id(rows, owner@),
        {
            proof {
                assert(rows.skip(i as int)[0] == rows[i as int]);
                assert(rows.skip(i as int).skip(1) =~= rows.skip(i as int + 1));
            }
            if self.rows[i].owner.eq(owner) {
                return Some(self.rows[i].id.clone());
            }
        }
        proof {
            assert(rows.skip(n as int) =~= Seq::<Mailbox>::empty());
        }
        None
    }
}

/// The listing row for a stored conversation.
pub open spec fn to_list_item(c: ConversationResponse) -> ConversationListItem {
    ConversationListItem { name: c.name, title: c.title, admin: c.admin, created: c.created }
}

/// The listing rows of the conversations that `user` participates in, in
/// stored order.
pub open spec fn items_for_user(
    rows: Seq<ConversationResponse>,
    edges: Seq<crate::models::Participant>,
    user: Seq<char>,
) -> Seq<ConversationListItem>
    decreases rows.len(),
{
    if rows.len() == 0 {
        Seq::empty()
    } else {
        let rest = items_for_user(rows.skip(1), edges, user);
        if has_edge(edges, rows[0].name@, user) {
            seq![to_list_item(rows[0])] + rest
        } else {
            rest
        }
    }
}

/// `c` placed into the `created`-descending sequence `sorted`, after every
/// element whose `created` is not smaller: the stable insertion step.
pub open spec fn insert_by_created_desc(
    sorted: Seq<ConversationListItem>,
    c: ConversationListItem,
) -> Seq<ConversationListItem>
    decreases sorted.len(),
{
    if sorted.len() == 0 {
        seq![c]
    } else if sorted.last().created >= c.created {
        sorted.push(c)
    } else {
        insert_by_created_desc(sorted.drop_last(), c).push(sorted.last())
    }
}

/// Stable sort by `created`, descending: the listing order.
pub open spec fn sort_by_created_desc(s: Seq<ConversationListItem>) -> Seq<ConversationListItem>
    decreases s.len(),
{
    if s.len() == 0 {
        Seq::empty()
    } else {
        insert_by_created_desc(sort_by_created_desc(s.drop_last()), s.last())
    }
}

proof fn lemma_insert_by_created_desc_at(s: Seq<ConversationListItem>, c: ConversationListItem, p: int)
    requires
        0 <= p <= s.len(),
        forall|k: int| p <= k < s.len() ==> s[k].created < c.created,
        p > 0 ==> s[p - 1].created >= c.created,
    ensures
        insert_by_created_desc(s, c) == s.take(p) + seq![c] + s.skip(p),
    decreases s.len(),
{
    if s.len() == 0 {
        assert(insert_by_created_desc(s, c) =~= s.take(0) + seq![c] + s.skip(0));
    } else if s.last().created >= c.created {
        assert(p == s.len());
        assert(s.take(p) =~= s);
        assert(s.skip(p) =~= Seq::<ConversationListItem>::empty());
        assert(s.push(c) =~= s.take(p) + seq![c] + s.skip(p));
    } else {
        assert(p < s.len());
        lemma_insert_by_created_desc_at(s.drop_last(), c, p);
        assert(insert_by_created_desc(s.drop_last(), c).push(s.last()) =~= s.take(p) + seq![c]
            + s.skip(p)) by {
            assert(s.drop_last().take(p) =~= s.take(p));
            assert(s.drop_last().skip(p).push(s.last()) =~= s.skip(p));
        }
    }
}

fn clone_item(c: &ConversationListItem) -> (r: ConversationListItem)
    ensures
        r == *c,
{
    ConversationListItem {
        name: c.name.clone(),
        title: clone_opt_string(&c.title),
        admin: c.admin.clone(),
        created: c.created,
    }
}

fn insert_item_sorted(v: &mut Vec<ConversationListItem>, c: ConversationListItem)
    ensures
        final(v)@ == insert_by_created_desc(old(v)@, c),
{
    let mut i: usize = v.len();
    while i > 0 && v[i - 1].created < c.created
        invariant
            0 <= i <= v.len(),
            v@ == old(v)@,
            forall|k: int| i <= k < v.len() ==> v@[k].created < c.created,
        decreases i,
    {
        i = i - 1;
    }
    let ghost p = i as int;
    v.insert(i, c);
    proof {
        lemma_insert_by_created_desc_at(old(v)@, c, p);
        assert(v@ =~= old(v)@.take(p) + seq![c] + old(v)@.skip(p));
    }
}

impl Conversation {
    /// The conversation listing for `user`: one row per conversation the
    /// user participates in, newest first.
    pub fn list_for(&self, parts: &Participant, user: &String) -> (r: Vec<ConversationListItem>)
        ensures
            r@ == sort_by_created_desc(items_for_user(self.rows(), parts.edges(), user@)),
    {
        let mut matched: Vec<ConversationListItem> = Vec::new();
        let n = self.rows.len();
        let ghost rows = self.rows@;
        proof {
            assert(rows.skip(0) =~= rows);
        }
        for i in 0..n
            invariant
                n == self.rows.len(),
                rows == self.rows@,
                matched@ + items_for_user(rows.skip(i as int), parts.edges(), user@)
                    =~= items_for_user(rows, parts.edges(), user@),
        {
            proof {
                assert(rows.skip(i as int)[0] == rows[i as int]);
                assert(rows.skip(i as int).skip(1) =~= rows.skip(i as int + 1));
            }
            if parts.is_participant(&self.rows[i].name, user) {
                let item = ConversationListItem {
                    name: self.rows[i].name.clone(),
                    title: clone_opt_string(&self.rows[i].title),
                    admin: self.rows[i].admin.clone(),
                    created: self.rows[i].created,
                };
                proof {
                    assert(item == to_list_item(rows[i as int]));
                }
                matched.push(item);
                proof {
                    let rest = items_for_user(rows.skip(i as int + 1), parts.edges(), user@);
                    assert(items_for_user(rows.skip(i as int), parts.edges(), user@)
                        =~= seq![to_list_item(rows[i as int])] + rest);
                }
            }
        }
        proof {
            assert(rows.skip(n as int) =~= Seq::<ConversationResponse>::empty());
            assert(matched@ + Seq::<ConversationListItem>::empty() =~= matched@);
        }
        let ghost items = matched@;
        let mut input = matched;
        let mut out: Vec<ConversationListItem> = Vec::new();
        while input.len() > 0
            invariant
                items.len() >= input.len(),
                input@ =~= items.skip(items.len() - input@.len()),
                out@ == sort_by_created_desc(items.take(items.len() - input@.len())),
            decreases input.len(),
        {
            let ghost k = items.len() - input@.len();
            let c = input.remove(0);
            proof {
                assert(c == items[k]);
                assert(input@ =~= items.skip(k + 1));
                assert(items.take(k + 1).drop_last() =~= items.take(k));
                assert(items.take(k + 1).last() == items[k]);
            }
            insert_item_sorted(&mut out, c);
        }
        proof {
            assert(items.take(items.len() as int) =~= items);
        }
        out
    }
}

} // verus!
