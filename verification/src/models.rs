//! Data model of the messaging core: envelopes, receipts, conversations,
//! participants and mailboxes, plus the retrieval filters.

use vstd::prelude::*;

verus! {

/// A message envelope.  `id` and `created` are stamped by the write path
/// before the envelope is enqueued; an envelope is immutable once persisted.
pub struct InsertMessage {
    pub source: String,
    /// Target message box: a conversation name or a peer mailbox id.
    pub mbox: String,
    pub text: String,
    /// Message being replied to, if any.
    pub reply_to: Option<i64>,
    pub created: i64,
    pub id: String,
}

/// Filters accepted by message retrieval.
pub struct MessageFilters {
    pub source: Option<String>,
    pub created: Option<i64>,
    pub reply_to: Option<i64>,
    /// Max items per page.
    pub limit: Option<i32>,
    /// Items to skip.
    pub offset: Option<i32>,
}

/// The largest page a retrieval may return, and the default when the
/// client asks for none.
pub const MAX_PAGE_SIZE: i32 = 1000;

impl MessageFilters {
    /// Page size: the client's request, enforced not to exceed
    /// `MAX_PAGE_SIZE`; absent or negative requests get the default.
    pub fn limit(&self) -> (r: i32)
        ensures
            r == self.spec_limit(),
    {
        match self.limit {
            Some(l) => if l < 0 || l > MAX_PAGE_SIZE {
                MAX_PAGE_SIZE
            } else {
                l
            },
            None => MAX_PAGE_SIZE,
        }
    }

    /// Items to skip, defaulting to 0 when the client gives none.
    pub fn offset(&self) -> (r: i32)
        ensures
            r == self.spec_offset(),
    {
        match self.offset {
            Some(o) => o,
            None => 0,
        }
    }

    pub open spec fn spec_limit(&self) -> int {
        match self.limit {
            Some(l) => if l < 0 || l > MAX_PAGE_SIZE {
                MAX_PAGE_SIZE as int
            } else {
                l as int
            },
            None => MAX_PAGE_SIZE as int,
        }
    }

    pub open spec fn spec_offset(&self) -> int {
        match self.offset {
            Some(o) => o as int,
            None => 0,
        }
    }
}

/// Body of a message post request.
pub struct CreateMessage {
    pub text: String,
    pub reply_to: Option<i64>,
}

/// One row of the conversation listing for a principal.
pub struct ConversationListItem {
    pub name: String,
    pub title: Option<String>,
    pub admin: String,
    pub created: i64,
}

/// Body of a conversation creation request.
pub struct CreateConversation {
    pub participants: Vec<String>,
    pub title: Option<String>,
}

/// A stored conversation as returned to clients.  A conversation is a
/// shared mailbox whose id equals the conversation name.
pub struct ConversationResponse {
    pub name: String,
    pub admin: String,
    pub title: Option<String>,
    pub created: i64,
    pub mbox: String,
}

/// Fields of a conversation about to be inserted.
pub struct InsertConversation {
    pub name: String,
    pub admin: String,
    pub title: Option<String>,
}

/// A mailbox: the destination of a message.  A per-peer default mailbox
/// (kind 0) is lazily created on first direct message to that peer.
pub struct Mailbox {
    pub id: String,
    pub owner: String,
    pub kind: i8,
}

/// A participant edge: membership of a principal in a conversation.
/// Unique on `(conversation, participant)`.
#[derive(Clone)]
pub struct Participant {
    pub id: i64,
    pub conversation: String,
    pub participant: String,
    pub created: i64,
}

/// A delivery / read / reaction event as published to the receipt queue.
pub struct Receipt {
    pub message: String,
    pub user: String,
    pub delivered: bool,
    pub read: bool,
    pub reaction: Option<i64>,
}

/// A persisted receipt row, unique on `(message, user)`.  Timestamps are
/// monotone: once non-null they are never cleared; reaction is
/// last-non-null-writer-wins.
pub struct RetrieveReceipt {
    pub message: String,
    pub user: String,
    pub delivered_at: Option<i64>,
    pub read_at: Option<i64>,
    pub reaction: Option<i64>,
}

} // verus!
