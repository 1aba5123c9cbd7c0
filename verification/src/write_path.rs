//! The write path: per-request decisions between the HTTP chassis, the
//! durable queue, the store and the session registry.
//!
//! Each function here is the computing half of one request: the chassis
//! supplies the looked-up values (participant list, fresh id, clock) and
//! performs the I/O that the returned plan calls for.

use vstd::prelude::*;

use crate::directory::Mailboxes;
use crate::directory::first_box_id;
use crate::directory::has_box;
use crate::models::CreateConversation;
use crate::models::CreateMessage;
use crate::models::InsertConversation;
use crate::models::InsertMessage;
use crate::models::Mailbox;
use crate::models::Participant;
use crate::models::Receipt;
use crate::registry::DeliverMessage;
use crate::wire::encode_envelope;
use crate::wire::envelope_json;

verus! {

/// A fresh envelope or conversation id.
///
/// Relies on uuid::Uuid::new_v4 and its Display impl: a random
/// version-4 UUID written in the hyphenated lowercase form, which is
/// always 36 characters.  Nothing is promised of which id comes back.
#[verifier::external_body]
pub fn fresh_id() -> (r: String)
    ensures
        r@.len() == 36,
{
    uuid::Uuid::new_v4().to_string()
}

/// True when `user` appears in the participant edges `ps`.
pub open spec fn is_member(ps: Seq<Participant>, user: Seq<char>) -> bool {
    exists|i: int| 0 <= i < ps.len() && ps[i].participant@ == user
}

/// The fan-out recipients: every participant except the source, in edge
/// order.
pub open spec fn fanout_targets(ps: Seq<Participant>, src: Seq<char>) -> Seq<String>
    decreases ps.len(),
{
    if ps.len() == 0 {
        Seq::empty()
    } else {
        let rest = fanout_targets(ps.skip(1), src);
        if ps[0].participant@ == src {
            rest
        } else {
            seq![ps[0].participant] + rest
        }
    }
}

/// What a conversation post decides.
pub enum PostOutcome {
    /// The source is not a participant: rejected, nothing enqueued.
    Forbidden,
    /// Accepted: enqueue the envelope, then deliver to each recipient.
    Accepted { envelope: InsertMessage, recipients: Vec<String> },
}

/// Decide a post to a conversation: reject unless the source is a
/// participant; otherwise stamp the envelope with the fresh `id` and the
/// clock reading `now`, and fan out to every other participant.
pub fn post_message(
    principal: &String,
    conversation: &String,
    payload: &CreateMessage,
    participants: &Vec<Participant>,
    id: String,
    now: i64,
) -> (r: PostOutcome)
    ensures
        r is Forbidden <==> !is_member(participants@, principal@),
        r matches PostOutcome::Accepted { envelope, recipients } ==> envelope.source == *principal
            && envelope.mbox == *conversation && envelope.text == payload.text && envelope.reply_to
            == payload.reply_to && envelope.created == now && envelope.id == id && recipients@
            == fanout_targets(participants@, principal@),
{
    let n = participants.len();
    let mut member = false;
    let ghost ps = participants@;
    for i in 0..n
        invariant
            n == participants.len(),
            ps == participants@,
            member == exists|j: int| 0 <= j < i && ps[j].participant@ == principal@,
    {
        if participants[i].participant.eq(principal) {
            member = true;
        }
    }
    if !member {
        return PostOutcome::Forbidden;
    }
    let envelope = InsertMessage {
        source: principal.clone(),
        mbox: conversation.clone(),
        text: payload.text.clone(),
        reply_to: payload.reply_to,
        created: now,
        id,
    };
    let mut recipients: Vec<String> = Vec::new();
    proof {
        assert(ps.skip(0) =~= ps);
    }
    for i in 0..n
        invariant
            n == participants.len(),
            ps == participants@,
            recipients@ + fanout_targets(ps.skip(i as int), principal@) =~= fanout_targets(
                ps,
                principal@,
            ),
    {
        proof {
            assert(ps.skip(i as int)[0] == ps[i as int]);
            assert(ps.skip(i as int).skip(1) =~= ps.skip(i as int + 1));
        }
        if !participants[i].participant.eq(principal) {
            recipients.push(participants[i].participant.clone());
            proof {
                let rest = fanout_targets(ps.skip(i as int + 1), principal@);
                assert(fanout_targets(ps.skip(i as int), principal@) =~= seq![
                    ps[i as int].participant,
                ] + rest);
            }
        }
    }
    proof {
        assert(ps.skip(n as int) =~= Seq::<Participant>::empty());
        assert(recipients@ + Seq::<String>::empty() =~= recipients@);
    }
    PostOutcome::Accepted { envelope, recipients }
}

/// The registry calls an accepted post asks for: one frame per recipient,
/// each carrying the envelope id and the envelope's wire form.
pub fn deliver_plan(envelope: &InsertMessage, recipients: &Vec<String>) -> (r: Vec<DeliverMessage>)
    ensures
        r@.len() == recipients@.len(),
        forall|i: int|
            0 <= i < r@.len() ==> (#[trigger] r@[i]).to == recipients@[i] && r@[i].id
                == envelope.id && r@[i].payload@ == envelope_json(*envelope),
{
    let mut out: Vec<DeliverMessage> = Vec::new();
    let n = recipients.len();
    for i in 0..n
        invariant
            n == recipients.len(),
            out@.len() == i,
            forall|j: int|
                0 <= j < i ==> (#[trigger] out@[j]).to == recipients@[j] && out@[j].id
                    == envelope.id && out@[j].payload@ == envelope_json(*envelope),
    {
        out.push(
            DeliverMessage {
                to: recipients[i].clone(),
                payload: encode_envelope(envelope),
                id: envelope.id.clone(),
            },
        );
    }
    out
}

/// Decide a post to a peer's default mailbox: any authenticated principal
/// may post, so the envelope is stamped unconditionally and delivered to
/// the peer alone.
pub fn peer_message(
    principal: &String,
    peer: &String,
    mbox: String,
    payload: &CreateMessage,
    id: String,
    now: i64,
) -> (r: (InsertMessage, DeliverMessage))
    ensures
        r.0.source == *principal && r.0.mbox == mbox && r.0.text == payload.text && r.0.reply_to
            == payload.reply_to && r.0.created == now && r.0.id == id,
        r.1.to == *peer && r.1.id == id && r.1.payload@ == envelope_json(r.0),
{
    let envelope = InsertMessage {
        source: principal.clone(),
        mbox,
        text: payload.text.clone(),
        reply_to: payload.reply_to,
        created: now,
        id,
    };
    let deliver = DeliverMessage {
        to: peer.clone(),
        payload: encode_envelope(&envelope),
        id: envelope.id.clone(),
    };
    (envelope, deliver)
}

/// Why a conversation creation request was refused.
#[derive(Debug)]
pub enum ValidationError {
    /// A conversation must name at least one participant.
    EmptyParticipants,
}

/// What a valid conversation creation request asks the store to do.
pub struct ConversationPlan {
    pub conversation: InsertConversation,
    /// The participant edges to insert: the creator first, then the named
    /// participants other than the creator.
    pub members: Vec<String>,
}

/// The named participants other than the creator, in request order.
pub open spec fn other_members(ps: Seq<String>, creator: Seq<char>) -> Seq<String>
    decreases ps.len(),
{
    if ps.len() == 0 {
        Seq::empty()
    } else {
        let rest = other_members(ps.skip(1), creator);
        if ps[0]@ == creator {
            rest
        } else {
            seq![ps[0]] + rest
        }
    }
}

/// Decide a conversation creation: reject an empty participant list;
/// otherwise the conversation is named by the fresh `name`, administered
/// by its creator, and the creator joins ahead of the named participants.
pub fn create_conversation(principal: &String, payload: &CreateConversation, name: String) -> (r:
    Result<ConversationPlan, ValidationError>)
    ensures
        r is Err <==> payload.participants@.len() == 0,
        r matches Ok(p) ==> p.conversation.name == name && p.conversation.admin == *principal
            && p.conversation.title == payload.title && p.members@ == seq![*principal]
            + other_members(payload.participants@, principal@),
{
    if payload.participants.len() == 0 {
        return Err(ValidationError::EmptyParticipants);
    }
    let conversation = InsertConversation {
        name,
        admin: principal.clone(),
        title: match &payload.title {
            Some(t) => Some(t.clone()),
            None => None,
        },
    };
    let mut members: Vec<String> = Vec::new();
    members.push(principal.clone());
    let n = payload.participants.len();
    let ghost ps = payload.participants@;
    proof {
        assert(ps.skip(0) =~= ps);
        assert(members@ =~= seq![*principal]);
    }
    for i in 0..n
        invariant
            n == payload.participants.len(),
            ps == payload.participants@,
            members@ + other_members(ps.skip(i as int), principal@) =~= seq![*principal]
                + other_members(ps, principal@),
    {
        proof {
            assert(ps.skip(i as int)[0] == ps[i as int]);
            assert(ps.skip(i as int).skip(1) =~= ps.skip(i as int + 1));
        }
        if !payload.participants[i].eq(principal) {
            members.push(payload.participants[i].clone());
            proof {
                let rest = other_members(ps.skip(i as int + 1), principal@);
                assert(other_members(ps.skip(i as int), principal@) =~= seq![ps[i as int]] + rest);
            }
        }
    }
    proof {
        assert(ps.skip(n as int) =~= Seq::<String>::empty());
        assert(members@ + Seq::<String>::empty() =~= members@);
    }
    Ok(ConversationPlan { conversation, members })
}

/// The delivery receipts a fetch publishes: one per returned message,
/// delivered and unread, for the fetching principal.
pub fn delivery_receipts(user: &String, msgs: &Vec<InsertMessage>) -> (r: Vec<Receipt>)
    ensures
        r@.len() == msgs@.len(),
        forall|i: int|
            0 <= i < r@.len() ==> (#[trigger] r@[i]).message == msgs@[i].id && r@[i].user == *user
                && r@[i].delivered == true && r@[i].read == false && r@[i].reaction is None,
{
    let mut out: Vec<Receipt> = Vec::new();
    let n = msgs.len();
    for i in 0..n
        invariant
            n == msgs.len(),
            out@.len() == i,
            forall|j: int|
                0 <= j < i ==> (#[trigger] out@[j]).message == msgs@[j].id && out@[j].user == *user
                    && out@[j].delivered == true && out@[j].read == false && out@[j].reaction
                    is None,
    {
        out.push(
            Receipt {
                message: msgs[i].id.clone(),
                user: user.clone(),
                delivered: true,
                read: false,
                reaction: None,
            },
        );
    }
    out
}

/// The receipt event a reaction request publishes: reaction only.
pub fn react(user: &String, msg: String, reaction: i64) -> (r: Receipt)
    ensures
        r.message == msg && r.user == *user && r.delivered == false && r.read == false
            && r.reaction == Some(reaction),
{
    Receipt { message: msg, user: user.clone(), delivered: false, read: false, reaction: Some(
        reaction,
    ) }
}

/// The receipt event a mark-as-read request publishes: read only.
pub fn mark_as_read(user: &String, msg: String) -> (r: Receipt)
    ensures
        r.message == msg && r.user == *user && r.delivered == false && r.read == true && r.reaction
            is None,
{
    Receipt { message: msg, user: user.clone(), delivered: false, read: true, reaction: None }
}

/// The peer's default mailbox is lazily created on first direct message:
/// insert a kind-0 mailbox under the fresh `id` and hand the id back.  An
/// id collision leaves the table unchanged; the id is still the answer.
pub fn create_default_mbox(boxes: &mut Mailboxes, owner: String, id: String) -> (r: String)
    requires
        old(boxes).wf(),
    ensures
        final(boxes).wf(),
        r == id,
        !has_box(old(boxes).rows(), id@) ==> final(boxes).rows() == old(boxes).rows().push(
            (Mailbox { id, owner, kind: 0 }),
        ),
        has_box(old(boxes).rows(), id@) ==> *final(boxes) == *old(boxes),
{
    let out = id.clone();
    let mb = Mailbox { id, owner, kind: 0 };
    let _ = boxes.insert(mb);
    out
}

/// Resolve `peer`'s default mailbox id, creating the mailbox under the
/// fresh `new_id` when the peer has none yet.
pub fn get_default_mbox(boxes: &mut Mailboxes, peer: &String, new_id: String) -> (r: String)
    requires
        old(boxes).wf(),
    ensures
        final(boxes).wf(),
        match first_box_id(old(boxes).rows(), peer@) {
            Some(id) => r == id && *final(boxes) == *old(boxes),
            None => r == new_id && (!has_box(old(boxes).rows(), new_id@) ==> final(boxes).rows()
                == old(boxes).rows().push((Mailbox { id: new_id, owner: *peer, kind: 0 }))) && (
            has_box(old(boxes).rows(), new_id@) ==> *final(boxes) == *old(boxes)),
        },
{
    match boxes.get_by_owner(peer) {
        Some(id) => id,
        None => create_default_mbox(boxes, peer.clone(), new_id),
    }
}

/// What a conversation message fetch decides.
pub enum FetchOutcome {
    /// The principal is not a participant: rejected.
    Forbidden,
    /// The page of matching messages, and the delivery receipts to
    /// publish for them.
    Messages { messages: Vec<InsertMessage>, receipts: Vec<Receipt> },
}

/// Fetch the messages of a conversation: reject unless the principal is a
/// participant; otherwise return the filtered page and one delivery
/// receipt per returned message.
pub fn get_messages(
    parts: &crate::directory::Participant,
    msgs: &crate::store::Message,
    principal: &String,
    conversation: &String,
    f: &crate::models::MessageFilters,
) -> (r: FetchOutcome)
    ensures
        r is Forbidden <==> !crate::directory::has_edge(parts.edges(), conversation@, principal@),
        r matches FetchOutcome::Messages { messages, receipts } ==> messages@
            == crate::store::retrieved_msgs(msgs.rows(), conversation@, *f) && receipts@.len()
            == messages@.len() && forall|i: int|
            0 <= i < receipts@.len() ==> (#[trigger] receipts@[i]).message == messages@[i].id
                && receipts@[i].user == *principal && receipts@[i].delivered == true
                && receipts@[i].read == false && receipts@[i].reaction is None,
{
    if !parts.is_participant(conversation, principal) {
        return FetchOutcome::Forbidden;
    }
    let messages = msgs.retrieve(conversation, f);
    let receipts = delivery_receipts(principal, &messages);
    FetchOutcome::Messages { messages, receipts }
}

/// Fetch the principal's inbox: an empty page when the mailbox could not
/// be resolved, else the filtered page of its default mailbox and one
/// delivery receipt per returned message.
pub fn get_pmessages(
    msgs: &crate::store::Message,
    principal: &String,
    mbox: Option<String>,
    f: &crate::models::MessageFilters,
) -> (r: (Vec<InsertMessage>, Vec<Receipt>))
    ensures
        match mbox {
            Some(mb) => r.0@ == crate::store::retrieved_msgs(msgs.rows(), mb@, *f),
            None => r.0@ == Seq::<InsertMessage>::empty(),
        },
        r.1@.len() == r.0@.len(),
        forall|i: int|
            0 <= i < r.1@.len() ==> (#[trigger] r.1@[i]).message == r.0@[i].id && r.1@[i].user
                == *principal && r.1@[i].delivered == true && r.1@[i].read == false
                && r.1@[i].reaction is None,
{
    match mbox {
        Some(mb) => {
            let messages = msgs.retrieve(&mb, f);
            let receipts = delivery_receipts(principal, &messages);
            (messages, receipts)
        },
        None => (Vec::new(), Vec::new()),
    }
}

/// What a conversation fetch decides.
pub enum ConversationOutcome {
    /// The principal is not a participant: rejected.
    Forbidden,
    /// No conversation of that name exists.
    NotFound,
    /// The conversation.
    Found(crate::models::ConversationResponse),
}

/// Fetch one conversation: reject unless the principal is a participant,
/// answer not-found for an unknown name, else return the row.
pub fn get_conversation(
    parts: &crate::directory::Participant,
    convs: &crate::directory::Conversation,
    principal: &String,
    name: &String,
) -> (r: ConversationOutcome)
    ensures
        r is Forbidden <==> !crate::directory::has_edge(parts.edges(), name@, principal@),
        !(r is Forbidden) ==> (r is NotFound <==> !crate::directory::has_conv(
            convs.rows(),
            name@,
        )),
        r matches ConversationOutcome::Found(c) ==> c.name@ == name@ && exists|i: int|
            0 <= i < convs.rows().len() && convs.rows()[i] == c,
{
    if !parts.is_participant(name, principal) {
        return ConversationOutcome::Forbidden;
    }
    match convs.get(name) {
        Some(c) => ConversationOutcome::Found(c),
        None => ConversationOutcome::NotFound,
    }
}

/// Fetch the receipts of one message: only its sender may, and an unknown
/// message has no sender, so both answer nothing.
pub fn get_receipts(
    msgs: &crate::store::Message,
    rcpts: &crate::receipts::MessageReceipt,
    principal: &String,
    msg: &String,
) -> (r: Option<Vec<crate::models::RetrieveReceipt>>)
    ensures
        r is None <==> !(exists|i: int|
            0 <= i < msgs.rows().len() && msgs.rows()[i].id@ == msg@ && msgs.rows()[i].source@
                == principal@),
        r matches Some(v) ==> v@ == crate::receipts::rcpts_for(rcpts.rows(), msg@),
{
    if !msgs.is_sender(msg, principal) {
        return None;
    }
    Some(rcpts.retrieve(msg))
}

} // verus!
