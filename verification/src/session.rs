//! Verified state machine of one live session: heartbeat liveness, the
//! inbound frame protocol, and the outbound delivery-receipt rule.
//!
//! The chassis owns the socket.  It feeds every frame and every timer
//! tick to `handle` and performs the actions handed back, in order; the
//! outbound sink is single-consumer, so frame order is preserved.

use vstd::prelude::*;
use vstd::string::StringExecFns;

use crate::models::Receipt;
use crate::registry::Connect;
use crate::registry::Disconnect;
use crate::registry::PrivateMessage;
use crate::registry::ServerMessage;

verus! {

/// How long a session may stay silent before it is closed, in
/// milliseconds.
pub const HEARTBEAT_TIMEOUT_MS: i64 = 10000;

/// An inbound text frame, already parsed: `{type, to, content}`.
pub struct ClientMessage {
    pub msg_type: String,
    pub to: String,
    pub content: String,
}

/// One thing a session reacts to.
pub enum SessionEvent {
    /// A ping frame with its payload.
    Ping(String),
    /// A pong frame.
    Pong,
    /// A text frame: its parse, or nothing when it was not valid JSON of
    /// the client shape (such frames are ignored).
    Text(Option<ClientMessage>),
    /// The peer closes the session.
    Close,
    /// The periodic liveness timer.
    Tick,
    /// A payload routed to this session by the registry.
    Outbound(ServerMessage),
}

/// One thing the chassis must do for the session.
pub enum SessionAction {
    /// Reply with a pong carrying the given payload.
    Pong(String),
    /// Send a ping.
    Ping,
    /// Hand a private message to the registry.
    Forward(PrivateMessage),
    /// Write a text frame.
    SendText(String),
    /// Publish a receipt event to the receipt queue.
    PublishReceipt(Receipt),
    /// Unregister from the registry and stop.
    CloseSession,
}

/// The session has been silent longer than the liveness budget.
pub open spec fn hb_expired(last_heartbeat: int, now: int) -> bool {
    now - last_heartbeat > HEARTBEAT_TIMEOUT_MS
}

/// The state of one live session.
pub struct WsSession {
    pub user_id: String,
    /// The handle of the sink this session registered.
    pub addr: u64,
    pub last_heartbeat: i64,
}

impl WsSession {
    /// Open a session: remember the clock and register the sink handle
    /// `addr` with the registry.
    pub fn started(user_id: String, addr: u64, now: i64) -> (r: (WsSession, Connect))
        ensures
            r.0.user_id == user_id,
            r.0.addr == addr,
            r.0.last_heartbeat == now,
            r.1.user_id == user_id,
            r.1.addr == addr,
    {
        let connect = Connect { user_id: user_id.clone(), addr };
        (WsSession { user_id, addr, last_heartbeat: now }, connect)
    }

    /// Close a session: unregister this session's own sink from the
    /// registry.  Carrying the handle makes the removal compare-and-
    /// delete, so a stale session cannot unregister a fresh reconnect.
    pub fn stopped(&self) -> (r: Disconnect)
        ensures
            r.user_id == self.user_id,
            r.addr == self.addr,
    {
        Disconnect { user_id: self.user_id.clone(), addr: self.addr }
    }

    /// React to one event at clock reading `now`.
    ///
    /// Pings and pongs refresh the heartbeat; a private text frame is
    /// forwarded and any other text is ignored; a tick closes a silent
    /// session and pings a live one; an outbound payload is written and a
    /// delivery receipt for `(payload id, this principal)` is published.
    pub fn handle(&mut self, ev: SessionEvent, now: i64) -> (r: Vec<SessionAction>)
        ensures
            final(self).user_id == old(self).user_id,
            final(self).addr == old(self).addr,
            match ev {
                SessionEvent::Ping(p) => final(self).last_heartbeat == now && r@ == seq![
                    SessionAction::Pong(p),
                ],
                SessionEvent::Pong => final(self).last_heartbeat == now && r@ == Seq::<SessionAction>::empty(),
                SessionEvent::Text(parsed) => final(self).last_heartbeat == old(
                    self,
                ).last_heartbeat && match parsed {
                    Some(cm) => if cm.msg_type@ == "private"@ {
                        r@ == seq![
                            SessionAction::Forward(
                                (PrivateMessage {
                                    from: old(self).user_id,
                                    to: cm.to,
                                    content: cm.content,
                                }),
                            ),
                        ]
                    } else {
                        r@ == Seq::<SessionAction>::empty()
                    },
                    None => r@ == Seq::<SessionAction>::empty(),
                },
                SessionEvent::Close => final(self).last_heartbeat == old(self).last_heartbeat && r@
                    == seq![SessionAction::CloseSession],
                SessionEvent::Tick => final(self).last_heartbeat == old(self).last_heartbeat && r@
                    == if hb_expired(old(self).last_heartbeat as int, now as int) {
                    seq![SessionAction::CloseSession]
                } else {
                    seq![SessionAction::Ping]
                },
                SessionEvent::Outbound(sm) => final(self).last_heartbeat == old(
                    self,
                ).last_heartbeat && r@ == seq![
                    SessionAction::SendText(sm.payload),
                    SessionAction::PublishReceipt(
                        (Receipt {
                            message: sm.id,
                            user: old(self).user_id,
                            delivered: true,
                            read: false,
                            reaction: None,
                        }),
                    ),
                ],
            },
    {
        let mut out: Vec<SessionAction> = Vec::new();
        match ev {
            SessionEvent::Ping(p) => {
                self.last_heartbeat = now;
                out.push(SessionAction::Pong(p));
            },
            SessionEvent::Pong => {
                self.last_heartbeat = now;
            },
            SessionEvent::Text(parsed) => {
                match parsed {
                    Some(cm) => {
                        let private_kind = String::from_str("private");
                        if cm.msg_type.eq(&private_kind) {
                            out.push(
                                SessionAction::Forward(
                                    PrivateMessage {
                                        from: self.user_id.clone(),
                                        to: cm.to,
                                        content: cm.content,
                                    },
                                ),
                            );
                        }
                    },
                    None => {
                    },
                }
            },
            SessionEvent::Close => {
                out.push(SessionAction::CloseSession);
            },
            SessionEvent::Tick => {
                let silent_for = (now as i128) - (self.last_heartbeat as i128);
                if silent_for > HEARTBEAT_TIMEOUT_MS as i128 {
                    out.push(SessionAction::CloseSession);
                } else {
                    out.push(SessionAction::Ping);
                }
            },
            SessionEvent::Outbound(sm) => {
                let receipt = Receipt {
                    message: sm.id,
                    user: self.user_id.clone(),
                    delivered: true,
                    read: false,
                    reaction: None,
                };
                out.push(SessionAction::SendText(sm.payload));
                out.push(SessionAction::PublishReceipt(receipt));
            },
        }
        out
    }
}

} // verus!
